//! Presence bits over a closed set of component types.

use crate::component::ComponentId;
use crate::entity::Entity;
use crate::keys::map_keys;
use crate::model::ascending;
use std::collections::BTreeMap;
use vstd::prelude::*;

verus! {

/// Presence bits over a closed component universe: one bit per entity and
/// component type of the universe. Bit positions are assigned once.
pub struct PresenceIndex {
    bit_for: BTreeMap<ComponentId, u32>,
    /// Words per entity row.
    stride: usize,
    rows: BTreeMap<u64, Vec<u64>>,
}

/// Whether bit `bit` is set in a row of words.
pub open spec fn bit_set(words: Seq<u64>, bit: int) -> bool {
    words[bit / 64] & (1u64 << ((bit % 64) as u64)) != 0
}

/// Whether every bit of `mask` is also set in `row`.
pub open spec fn covers(row: Seq<u64>, mask: Seq<u64>) -> bool {
    forall|bit: int| 0 <= bit < 64 * mask.len() && bit_set(mask, bit) ==> bit_set(row, bit)
}

/// A mask without a single bit.
pub open spec fn blank(mask: Seq<u64>) -> bool {
    forall|i: int| 0 <= i < mask.len() ==> mask[i] == 0
}

proof fn lemma_raise(word: u64, i: u64, j: u64)
    by (bit_vector)
    requires
        i < 64,
        j < 64,
    ensures
        ((word | (1u64 << i)) & (1u64 << j) != 0) == (i == j || word & (1u64 << j) != 0),
{
}

proof fn lemma_lower(word: u64, i: u64, j: u64)
    by (bit_vector)
    requires
        i < 64,
        j < 64,
    ensures
        ((word & !(1u64 << i)) & (1u64 << j) != 0) == (i != j && word & (1u64 << j) != 0),
{
}

proof fn lemma_zero(j: u64)
    by (bit_vector)
    requires
        j < 64,
    ensures
        0u64 & (1u64 << j) == 0,
{
}

proof fn lemma_subset_bit(row: u64, mask: u64, j: u64)
    by (bit_vector)
    requires
        j < 64,
        row & mask == mask,
        mask & (1u64 << j) != 0,
    ensures
        row & (1u64 << j) != 0,
{
}

proof fn lemma_missing_bit(row: u64, mask: u64) -> (j: u64)
    requires
        row & mask != mask,
    ensures
        j < 64,
        mask & (1u64 << j) != 0,
        row & (1u64 << j) == 0,
{
    let lost = mask & !row;
    assert(lost != 0) by (bit_vector)
        requires
            row & mask != mask,
            lost == mask & !row,
    ;
    let j = vstd::std_specs::bits::u64_trailing_zeros(lost) as u64;
    vstd::std_specs::bits::axiom_u64_trailing_zeros(lost);
    assert(j < 64);
    assert((lost >> j) & 1u64 == 1u64);
    assert(mask & (1u64 << j) != 0 && row & (1u64 << j) == 0) by (bit_vector)
        requires
            j < 64,
            lost == mask & !row,
            (lost >> j) & 1u64 == 1u64,
    ;
    j
}

proof fn lemma_words_cover(row: Seq<u64>, mask: Seq<u64>)
    requires
        row.len() == mask.len(),
    ensures
        covers(row, mask) <==> forall|i: int|
            0 <= i < mask.len() ==> #[trigger] row[i] & mask[i] == mask[i],
{
    if covers(row, mask) {
        assert forall|i: int| 0 <= i < mask.len() implies #[trigger] row[i] & mask[i]
            == mask[i] by {
            if row[i] & mask[i] != mask[i] {
                let j = lemma_missing_bit(row[i], mask[i]);
                let bit = 64 * i + j;
                assert(bit / 64 == i && bit % 64 == j);
                assert(bit_set(mask, bit));
                assert(!bit_set(row, bit));
            }
        }
    }
    if forall|i: int| 0 <= i < mask.len() ==> #[trigger] row[i] & mask[i] == mask[i] {
        assert forall|bit: int|
            0 <= bit < 64 * mask.len() && bit_set(mask, bit) implies bit_set(row, bit) by {
            let i = bit / 64;
            assert(row[i] & mask[i] == mask[i]);
            lemma_subset_bit(row[i], mask[i], (bit % 64) as u64);
        }
    }
}

/// Whether every bit of `mask` is set in `row`, word by word.
fn row_covers(row: &Vec<u64>, mask: &Vec<u64>) -> (covered: bool)
    requires
        row@.len() == mask@.len(),
    ensures
        covered == covers(row@, mask@),
{
    let mut i: usize = 0;
    while i < mask.len()
        invariant
            i <= mask@.len(),
            row@.len() == mask@.len(),
            forall|j: int| 0 <= j < i ==> #[trigger] row@[j] & mask@[j] == mask@[j],
        decreases mask@.len() - i,
    {
        if row[i] & mask[i] != mask[i] {
            proof {
                lemma_words_cover(row@, mask@);
                assert(row@[i as int] & mask@[i as int] != mask@[i as int]);
            }
            return false;
        }
        i = i + 1;
    }
    proof {
        lemma_words_cover(row@, mask@);
    }
    true
}

impl PresenceIndex {
    /// The component types that have a bit.
    pub closed spec fn universe(&self) -> Set<ComponentId> {
        self.bit_for@.dom()
    }

    /// Words per entity row.
    pub closed spec fn width(&self) -> nat {
        self.stride as nat
    }

    /// The row of `entity`, if any bit was ever set in it.
    pub closed spec fn row(&self, entity: Entity) -> Option<Seq<u64>> {
        if self.rows@.contains_key(entity.id()) {
            Some(self.rows@[entity.id()]@)
        } else {
            None
        }
    }

    /// The bit of component type `kind`.
    pub closed spec fn bit(&self, kind: ComponentId) -> int {
        self.bit_for@[kind] as int
    }

    /// Whether the index says that `entity` carries `kind`.
    pub open spec fn has(&self, kind: ComponentId, entity: Entity) -> bool {
        &&& self.universe().contains(kind)
        &&& self.row(entity) is Some
        &&& bit_set(self.row(entity)->0, self.bit(kind))
    }

    /// Whether the row of `entity` satisfies `mask`; an entity without a row
    /// satisfies the blank mask only.
    pub open spec fn satisfies(&self, entity: Entity, mask: Seq<u64>) -> bool {
        match self.row(entity) {
            Some(row) => covers(row, mask),
            None => blank(mask),
        }
    }

    /// Whether `mask` holds exactly the bits of `kinds`.
    pub open spec fn masks(&self, mask: Seq<u64>, kinds: Seq<ComponentId>) -> bool {
        &&& mask.len() == self.width()
        &&& forall|i: int| 0 <= i < kinds.len() ==> self.universe().contains(#[trigger] kinds[i])
        &&& forall|bit: int|
            0 <= bit < 64 * self.width() ==> (#[trigger] bit_set(mask, bit) <==> exists|i: int|
                0 <= i < kinds.len() && self.bit(#[trigger] kinds[i]) == bit)
    }

    /// Every type of the universe has a bit of its own inside the row.
    pub closed spec fn wf(&self) -> bool {
        &&& self.stride >= 1
        &&& forall|kind: ComponentId| #[trigger]
            self.bit_for@.contains_key(kind) ==> self.bit_for@[kind] < 64 * self.stride
        &&& forall|a: ComponentId, b: ComponentId|
            self.bit_for@.contains_key(a) && self.bit_for@.contains_key(b) && a != b
                ==> #[trigger] self.bit_for@[a] != #[trigger] self.bit_for@[b]
        &&& forall|entity: u64| #[trigger]
            self.rows@.contains_key(entity) ==> self.rows@[entity]@.len() == self.stride
    }

    /// The index over `universe`, with no presence yet.
    pub fn new(universe: &Vec<ComponentId>) -> (index: Self)
        requires
            universe@.len() <= u32::MAX,
        ensures
            index.wf(),
            index.universe() == universe@.to_set(),
            forall|kind: ComponentId, entity: Entity| !#[trigger] index.has(kind, entity),
    {
        let mut bit_for: BTreeMap<ComponentId, u32> = BTreeMap::new();
        let mut count: u32 = 0;
        let mut i: usize = 0;
        while i < universe.len()
            invariant
                i <= universe@.len(),
                universe@.len() <= u32::MAX,
                count <= i,
                forall|kind: ComponentId| #[trigger]
                    bit_for@.contains_key(kind) <==> universe@.take(i as int).contains(kind),
                forall|kind: ComponentId| #[trigger]
                    bit_for@.contains_key(kind) ==> bit_for@[kind] < count,
                forall|a: ComponentId, b: ComponentId|
                    bit_for@.contains_key(a) && bit_for@.contains_key(b) && a != b
                        ==> #[trigger] bit_for@[a] != #[trigger] bit_for@[b],
            decreases universe@.len() - i,
        {
            let kind = universe[i];
            if !bit_for.contains_key(&kind) {
                bit_for.insert(kind, count);
                count = count + 1;
            }
            i = i + 1;
            proof {
                let before = universe@.take(i - 1);
                let now = universe@.take(i as int);
                assert(now =~= before.push(kind));
                assert forall|other: ComponentId| #[trigger]
                    bit_for@.contains_key(other) <==> now.contains(other) by {
                    if before.contains(other) {
                        let j = choose|j: int| 0 <= j < before.len() && before[j] == other;
                        assert(now[j] == other);
                    }
                    assert(now[i - 1] == kind);
                }
            }
        }
        let stride: usize = if count == 0 {
            1
        } else {
            ((count - 1) / 64 + 1) as usize
        };
        let index = PresenceIndex { bit_for, stride, rows: BTreeMap::new() };
        proof {
            assert(universe@.take(universe@.len() as int) =~= universe@);
            assert(index.universe() =~= universe@.to_set());
        }
        index
    }

    fn blank_row(&self) -> (row: Vec<u64>)
        ensures
            row@.len() == self.stride,
            blank(row@),
    {
        let mut row: Vec<u64> = Vec::new();
        while row.len() < self.stride
            invariant
                row@.len() <= self.stride,
                blank(row@),
            decreases self.stride - row@.len(),
        {
            row.push(0);
        }
        row
    }

    /// Records whether `entity` carries `kind`; types outside the universe have
    /// no bit.
    pub fn set(&mut self, kind: ComponentId, entity: Entity, present: bool)
        requires
            old(self).wf(),
        ensures
            final(self).wf(),
            final(self).universe() == old(self).universe(),
            final(self).width() == old(self).width(),
            forall|k: ComponentId, e: Entity| #[trigger]
                final(self).has(k, e) <==> if k == kind && e == entity {
                    present && old(self).universe().contains(kind)
                } else {
                    old(self).has(k, e)
                },
    {
        let bit: u32 = match self.bit_for.get(&kind) {
            Some(bit) => *bit,
            None => {
                return ;
            },
        };
        let mut row: Vec<u64> = match self.rows.remove(&entity.raw()) {
            Some(row) => row,
            None => {
                if !present {
                    assert(self.rows@ =~= old(self).rows@);
                    return ;
                }
                self.blank_row()
            },
        };
        let ghost before = row@;
        let word: usize = (bit / 64) as usize;
        let shift: u64 = (bit % 64) as u64;
        let flag: u64 = 1u64 << shift;
        let changed: u64 = if present {
            row[word] | flag
        } else {
            row[word] & !flag
        };
        row.set(word, changed);
        let ghost after = row@;
        self.rows.insert(entity.raw(), row);
        proof {
            assert forall|b: int| 0 <= b < 64 * self.stride implies #[trigger] bit_set(after, b)
                == (if b == bit {
                present
            } else {
                bit_set(before, b)
            }) by {
                lemma_raise(before[word as int], shift, (b % 64) as u64);
                lemma_lower(before[word as int], shift, (b % 64) as u64);
                if b / 64 == word {
                    assert(b == bit <==> b % 64 == shift);
                }
            }
            assert forall|k: ComponentId, e: Entity| #[trigger]
                self.has(k, e) <==> (if k == kind && e == entity {
                    present && old(self).universe().contains(kind)
                } else {
                    old(self).has(k, e)
                }) by {
                if self.universe().contains(k) {
                    let b = self.bit(k);
                    assert(0 <= b < 64 * self.stride);
                    if e.id() == entity.id() {
                        crate::entity::lemma_entity_is_its_id(e, entity);
                        assert(self.row(e) == Some(after));
                        assert(bit_set(after, b) == (if b == bit {
                            present
                        } else {
                            bit_set(before, b)
                        }));
                        assert(k == kind <==> b == bit);
                        if old(self).row(e) is None {
                            lemma_zero((b % 64) as u64);
                            assert(before[b / 64] == 0);
                        }
                    }
                }
            }
        }
    }

    /// Forgets every component of `entity`.
    pub fn clear_entity(&mut self, entity: Entity)
        requires
            old(self).wf(),
        ensures
            final(self).wf(),
            final(self).universe() == old(self).universe(),
            final(self).width() == old(self).width(),
            forall|k: ComponentId, e: Entity| #[trigger]
                final(self).has(k, e) <==> e != entity && old(self).has(k, e),
    {
        let _ = self.rows.remove(&entity.raw());
        proof {
            assert forall|k: ComponentId, e: Entity| #[trigger]
                self.has(k, e) <==> e != entity && old(self).has(k, e) by {
                if e.id() == entity.id() {
                    crate::entity::lemma_entity_is_its_id(e, entity);
                }
            }
        }
    }

    /// A copy of the index.
    pub fn share(&self) -> (copy: Self)
        requires
            self.wf(),
        ensures
            copy.wf(),
            copy.universe() == self.universe(),
            copy.width() == self.width(),
            forall|k: ComponentId, e: Entity| #[trigger] copy.has(k, e) <==> self.has(k, e),
    {
        let bit_for = self.bit_for.clone();
        let rows = self.rows.clone();
        PresenceIndex { bit_for, stride: self.stride, rows }
    }

    /// The mask for a conjunction of required components, or `None` when a type
    /// is outside the universe.
    pub fn mask(&self, kinds: &Vec<ComponentId>) -> (mask: Option<Vec<u64>>)
        requires
            self.wf(),
        ensures
            match mask {
                Some(mask) => self.masks(mask@, kinds@),
                None => exists|i: int|
                    0 <= i < kinds@.len() && !self.universe().contains(#[trigger] kinds@[i]),
            },
    {
        let mut mask = self.blank_row();
        proof {
            assert forall|b: int| 0 <= b < 64 * self.width() implies !#[trigger] bit_set(
                mask@,
                b,
            ) by {
                lemma_zero((b % 64) as u64);
                assert(mask@[b / 64] == 0);
            }
        }
        let mut i: usize = 0;
        while i < kinds.len()
            invariant
                self.wf(),
                i <= kinds@.len(),
                mask@.len() == self.stride,
                forall|j: int| 0 <= j < i ==> self.universe().contains(#[trigger] kinds@[j]),
                forall|b: int|
                    0 <= b < 64 * self.width() ==> (#[trigger] bit_set(mask@, b) <==> exists|j: int|
                        0 <= j < i && self.bit(#[trigger] kinds@[j]) == b),
            decreases kinds@.len() - i,
        {
            let bit: u32 = match self.bit_for.get(&kinds[i]) {
                Some(bit) => *bit,
                None => {
                    assert(!self.universe().contains(kinds@[i as int]));
                    return None;
                },
            };
            let ghost before = mask@;
            let word: usize = (bit / 64) as usize;
            let shift: u64 = (bit % 64) as u64;
            let changed: u64 = mask[word] | (1u64 << shift);
            mask.set(word, changed);
            proof {
                assert(self.universe().contains(kinds@[i as int]));
                assert(self.bit(kinds@[i as int]) == bit);
                assert forall|b: int| 0 <= b < 64 * self.width() implies (#[trigger] bit_set(
                    mask@,
                    b,
                ) <==> exists|j: int|
                    0 <= j < i + 1 && self.bit(#[trigger] kinds@[j]) == b) by {
                    lemma_raise(before[word as int], shift, (b % 64) as u64);
                    if b / 64 == word {
                        assert(b == bit <==> b % 64 == shift);
                    }
                    assert(bit_set(mask@, b) == (b == bit || bit_set(before, b)));
                    if bit_set(before, b) {
                        let j = choose|j: int| 0 <= j < i && self.bit(#[trigger] kinds@[j]) == b;
                        assert(0 <= j < i + 1 && self.bit(kinds@[j]) == b);
                    }
                }
            }
            i = i + 1;
        }
        Some(mask)
    }

    /// Whether the components of `entity` satisfy `mask`.
    pub fn matches(&self, entity: Entity, mask: &Vec<u64>) -> (hit: bool)
        requires
            self.wf(),
            mask@.len() == self.width(),
        ensures
            hit == self.satisfies(entity, mask@),
    {
        match self.rows.get(&entity.raw()) {
            Some(row) => row_covers(row, mask),
            None => {
                let mut i: usize = 0;
                while i < mask.len()
                    invariant
                        i <= mask@.len(),
                        self.row(entity) is None,
                        forall|j: int| 0 <= j < i ==> mask@[j] == 0,
                    decreases mask@.len() - i,
                {
                    if mask[i] != 0 {
                        return false;
                    }
                    i = i + 1;
                }
                true
            },
        }
    }

    /// All entities with a row that satisfies `mask`, ascending. For a mask
    /// that requires at least one component, these are all entities that
    /// satisfy it.
    pub fn entities_matching(&self, mask: &Vec<u64>) -> (entities: Vec<Entity>)
        requires
            self.wf(),
            mask@.len() == self.width(),
        ensures
            ascending(entities@.map_values(|entity: Entity| entity.id())),
            forall|entity: Entity|
                entities@.contains(entity) <==> (#[trigger] self.row(entity) is Some && covers(
                    self.row(entity)->0,
                    mask@,
                )),
    {
        let keys = map_keys(&self.rows);
        let mut entities: Vec<Entity> = Vec::new();
        let mut i: usize = 0;
        let ghost id = |entity: Entity| entity.id();
        while i < keys.len()
            invariant
                self.wf(),
                mask@.len() == self.width(),
                i <= keys@.len(),
                ascending(keys@),
                keys@.to_set() == self.rows@.dom(),
                id == (|entity: Entity| entity.id()),
                ascending(entities@.map_values(id)),
                forall|j: int| 0 <= j < entities@.len() ==> keys@.take(i as int).contains(
                    (#[trigger] entities@[j]).id(),
                ),
                forall|j: int|
                    0 <= j < entities@.len() ==> covers(
                        self.rows@[(#[trigger] entities@[j]).id()]@,
                        mask@,
                    ),
                forall|j: int|
                    0 <= j < i && covers(self.rows@[#[trigger] keys@[j]]@, mask@)
                        ==> entities@.contains(Entity::of(keys@[j])),
            decreases keys@.len() - i,
        {
            let key = keys[i];
            assert(keys@.to_set().contains(key));
            let ghost before = entities@;
            let hit = match self.rows.get(&key) {
                Some(row) => row_covers(row, mask),
                None => false,
            };
            assert(hit == covers(self.rows@[key]@, mask@));
            if hit {
                entities.push(Entity::from_raw(key));
            }
            proof {
                let seen = keys@.take(i as int);
                let now = keys@.take(i + 1);
                assert(now =~= seen.push(key));
                assert(now[i as int] == key);
                assert forall|j: int| 0 <= j < entities@.len() implies now.contains(
                    (#[trigger] entities@[j]).id(),
                ) by {
                    if j < before.len() {
                        assert(entities@[j] == before[j]);
                        let n = choose|n: int| 0 <= n < seen.len() && seen[n] == before[j].id();
                        assert(now[n] == before[j].id());
                    }
                }
                let ids = entities@.map_values(id);
                assert forall|a: int, b: int| 0 <= a < b < ids.len() implies ids[a] < ids[b] by {
                    assert(before.map_values(id)[a] == ids[a]);
                    if b < before.len() {
                        assert(before.map_values(id)[b] == ids[b]);
                    } else {
                        assert(seen.contains(before[a].id()));
                        let n = choose|n: int| 0 <= n < seen.len() && seen[n] == before[a].id();
                        assert(keys@[n] < keys@[i as int]);
                    }
                }
                assert forall|j: int|
                    0 <= j < i + 1 && covers(
                        self.rows@[#[trigger] keys@[j]]@,
                        mask@,
                    ) implies entities@.contains(Entity::of(keys@[j])) by {
                    if j < i {
                        let n = choose|n: int|
                            0 <= n < before.len() && before[n] == Entity::<
                                crate::entity::Untyped,
                            >::of(keys@[j]);
                        assert(entities@[n] == before[n]);
                    } else {
                        assert(entities@[before.len() as int] == Entity::<
                            crate::entity::Untyped,
                        >::of(key));
                    }
                }
            }
            i = i + 1;
        }
        proof {
            assert(keys@.take(keys@.len() as int) =~= keys@);
            assert forall|entity: Entity|
                entities@.contains(entity) <==> (#[trigger] self.row(entity) is Some && covers(
                    self.row(entity)->0,
                    mask@,
                )) by {
                if entities@.contains(entity) {
                    let j = choose|j: int| 0 <= j < entities@.len() && entities@[j] == entity;
                    assert(keys@.contains(entities@[j].id()));
                    assert(keys@.to_set().contains(entity.id()));
                }
                if self.row(entity) is Some && covers(self.row(entity)->0, mask@) {
                    assert(keys@.to_set().contains(entity.id()));
                    let j = choose|j: int| 0 <= j < keys@.len() && keys@[j] == entity.id();
                    assert(covers(self.rows@[keys@[j]]@, mask@));
                    crate::entity::lemma_entity_is_its_id(entity, Entity::of(keys@[j]));
                }
            }
        }
        entities
    }
}

/// A mask made of component types is satisfied by exactly the entities that
/// carry all of them.
pub proof fn lemma_mask_is_conjunction(
    index: PresenceIndex,
    mask: Seq<u64>,
    kinds: Seq<ComponentId>,
    entity: Entity,
)
    requires
        index.wf(),
        index.masks(mask, kinds),
    ensures
        index.satisfies(entity, mask) <==> forall|i: int|
            0 <= i < kinds.len() ==> index.has(#[trigger] kinds[i], entity),
{
    match index.row(entity) {
        Some(row) => {
            if covers(row, mask) {
                assert forall|i: int| 0 <= i < kinds.len() implies index.has(
                    #[trigger] kinds[i],
                    entity,
                ) by {
                    let bit = index.bit(kinds[i]);
                    assert(index.universe().contains(kinds[i]));
                    assert(bit_set(mask, bit));
                }
            }
            if forall|i: int| 0 <= i < kinds.len() ==> index.has(#[trigger] kinds[i], entity) {
                assert forall|bit: int|
                    0 <= bit < 64 * mask.len() && bit_set(mask, bit) implies bit_set(row, bit) by {
                    let i = choose|i: int|
                        0 <= i < kinds.len() && index.bit(#[trigger] kinds[i]) == bit;
                    assert(index.has(kinds[i], entity));
                }
            }
        },
        None => {
            if blank(mask) && kinds.len() > 0 {
                let bit = index.bit(kinds[0]);
                assert(index.universe().contains(kinds[0]));
                assert(bit_set(mask, bit));
                lemma_zero((bit % 64) as u64);
                assert(mask[bit / 64] == 0);
            }
            if kinds.len() == 0 {
                assert forall|i: int| 0 <= i < mask.len() implies mask[i] == 0 by {
                    if mask[i] != 0 {
                        let word = mask[i];
                        assert(0u64 & word != word) by (bit_vector)
                            requires
                                word != 0,
                        ;
                        let j = lemma_missing_bit(0, word);
                        let bit = 64 * i + j;
                        assert(bit / 64 == i && bit % 64 == j);
                        assert(bit_set(mask, bit));
                    }
                }
            } else {
                assert(!index.has(kinds[0], entity));
            }
        },
    }
}

} // verus!
