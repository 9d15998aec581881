//! Identity of system invocations, and maps keyed by it.

use crate::entity::Entity;
use vstd::prelude::*;

verus! {

/// Stable id assigned to a registered system.
#[derive(Debug, Clone, Copy, PartialEq, Eq, Hash, Structural)]
pub struct SystemId(pub usize);

/// Identity of one memoized system invocation: system id plus query entity
/// keys.
///
/// Derived outputs written by an invocation are owned by this value.
#[derive(Debug)]
pub struct SystemInvocation {
    pub system: SystemId,
    pub keys: Vec<Entity>,
}

/// Mathematical identity of a [`SystemInvocation`].
#[verifier::ext_equal]
pub struct Invocation {
    pub system: SystemId,
    pub keys: Seq<Entity>,
}

impl View for SystemInvocation {
    type V = Invocation;

    open spec fn view(&self) -> Invocation {
        Invocation { system: self.system, keys: self.keys@ }
    }
}

/// Copies a list of entities.
pub fn copy_entities(entities: &Vec<Entity>) -> (copy: Vec<Entity>)
    ensures
        copy@ == entities@,
{
    let mut copy: Vec<Entity> = Vec::new();
    let mut i: usize = 0;
    while i < entities.len()
        invariant
            i <= entities.len(),
            copy@ == entities@.take(i as int),
        decreases entities.len() - i,
    {
        copy.push(entities[i]);
        i = i + 1;
        assert(entities@.take(i as int) =~= entities@.take(i - 1).push(entities@[i - 1]));
    }
    assert(entities@.take(entities@.len() as int) =~= entities@);
    copy
}

/// Whether two lists of entities are equal.
pub fn same_entities(a: &Vec<Entity>, b: &Vec<Entity>) -> (same: bool)
    ensures
        same == (a@ == b@),
{
    if a.len() != b.len() {
        return false;
    }
    let mut i: usize = 0;
    while i < a.len()
        invariant
            i <= a.len(),
            a.len() == b.len(),
            forall|j: int| 0 <= j < i ==> a@[j] == b@[j],
        decreases a.len() - i,
    {
        if a[i].raw() != b[i].raw() {
            assert(a@[i as int] != b@[i as int]);
            return false;
        }
        assert(a@[i as int] == b@[i as int]) by {
            crate::entity::lemma_entity_is_its_id(a@[i as int], b@[i as int]);
        }
        i = i + 1;
    }
    assert(a@ =~= b@);
    true
}

/// Position of an entity in a list, if it occurs.
pub fn position_of(entities: &Vec<Entity>, entity: Entity) -> (at: Option<usize>)
    ensures
        match at {
            Some(i) => i < entities@.len() && entities@[i as int] == entity && forall|j: int|
                0 <= j < i ==> entities@[j] != entity,
            None => !entities@.contains(entity),
        },
{
    let mut i: usize = 0;
    while i < entities.len()
        invariant
            i <= entities.len(),
            forall|j: int| 0 <= j < i ==> entities@[j] != entity,
        decreases entities.len() - i,
    {
        if entities[i].raw() == entity.raw() {
            assert(entities@[i as int] == entity) by {
                crate::entity::lemma_entity_is_its_id(entities@[i as int], entity);
            }
            return Some(i);
        }
        i = i + 1;
    }
    None
}

impl SystemInvocation {
    /// The invocation of `system` on the rows `keys`.
    pub fn new(system: SystemId, keys: Vec<Entity>) -> (invocation: Self)
        ensures
            invocation@ == (Invocation { system, keys: keys@ }),
    {
        SystemInvocation { system, keys }
    }

    /// Whether two invocations are the same system on the same rows.
    pub fn same(&self, other: &SystemInvocation) -> (same: bool)
        ensures
            same == (self@ == other@),
    {
        self.system == other.system && same_entities(&self.keys, &other.keys)
    }

    /// A copy of the identity.
    pub fn duplicate(&self) -> (copy: SystemInvocation)
        ensures
            copy@ == self@,
    {
        SystemInvocation { system: self.system, keys: copy_entities(&self.keys) }
    }

    /// Whether any of the invocation's rows is in `entities`.
    pub fn touches(&self, entities: &Vec<Entity>) -> (hit: bool)
        ensures
            hit == self@.touched_by(entities@),
    {
        let mut i: usize = 0;
        while i < self.keys.len()
            invariant
                i <= self.keys.len(),
                forall|j: int| 0 <= j < i ==> !entities@.contains(#[trigger] self.keys@[j]),
            decreases self.keys.len() - i,
        {
            if position_of(entities, self.keys[i]).is_some() {
                assert(entities@.contains(self@.keys[i as int]));
                return true;
            }
            i = i + 1;
        }
        false
    }
}

impl Invocation {
    /// Whether any row key of the invocation is one of `entities`.
    pub open spec fn touched_by(self, entities: Seq<Entity>) -> bool {
        exists|i: int| 0 <= i < self.keys.len() && entities.contains(#[trigger] self.keys[i])
    }
}

/// A copy of an optional owner.
pub fn copy_owner(owner: &Option<SystemInvocation>) -> (copy: Option<SystemInvocation>)
    ensures
        owner_view(copy) == owner_view(*owner),
{
    match owner {
        Some(owner) => Some(owner.duplicate()),
        None => None,
    }
}

/// The identity of an optional owner.
pub open spec fn owner_view(owner: Option<SystemInvocation>) -> Option<Invocation> {
    match owner {
        Some(owner) => Some(owner@),
        None => None,
    }
}

/// A list of invocations without one of them.
pub open spec fn without_invocation(order: Seq<Invocation>, key: Invocation) -> Seq<Invocation> {
    if order.contains(key) {
        order.remove(order.index_of(key))
    } else {
        order
    }
}

/// Map from invocations to values: a list of slots in which no invocation
/// occurs twice.
pub struct InvocationMap<V> {
    slots: Vec<(SystemInvocation, V)>,
}

impl<V: View> View for InvocationMap<V> {
    type V = Map<Invocation, V::V>;

    closed spec fn view(&self) -> Map<Invocation, V::V> {
        Map::new(
            |k: Invocation| exists|i: int| self.at(i, k),
            |k: Invocation| self.slots@[choose|i: int| self.at(i, k)].1@,
        )
    }
}

impl<V> InvocationMap<V> {
    closed spec fn at(&self, i: int, k: Invocation) -> bool {
        0 <= i < self.slots@.len() && self.slots@[i].0@ == k
    }

    /// No invocation occurs twice.
    pub closed spec fn wf(&self) -> bool {
        forall|i: int, j: int|
            0 <= i < self.slots@.len() && 0 <= j < self.slots@.len() && (
            #[trigger] self.slots@[i]).0@ == (#[trigger] self.slots@[j]).0@ ==> i == j
    }

    /// The invocations present, in slot order.
    pub closed spec fn order(&self) -> Seq<Invocation> {
        self.slots@.map_values(|slot: (SystemInvocation, V)| slot.0@)
    }
}

impl<V: View> InvocationMap<V> {
    proof fn lemma_at(&self, i: int)
        requires
            self.wf(),
            0 <= i < self.slots@.len(),
        ensures
            self@.contains_key(self.slots@[i].0@),
            self@[self.slots@[i].0@] == self.slots@[i].1@,
    {
        let k = self.slots@[i].0@;
        assert(self.at(i, k));
        let c = choose|j: int| self.at(j, k);
        assert(self.at(c, k));
        assert(self.slots@[c].0@ == self.slots@[i].0@);
    }

    /// The slot order lists exactly the invocations of the map, each once.
    pub proof fn lemma_order(&self)
        requires
            self.wf(),
        ensures
            self.order().no_duplicates(),
            forall|k: Invocation| self.order().contains(k) <==> #[trigger] self@.contains_key(k),
    {
        let order = self.order();
        assert forall|i: int, j: int|
            0 <= i < order.len() && 0 <= j < order.len() && i != j implies order[i] != order[j] by {
            assert(self.slots@[i].0@ == order[i]);
            assert(self.slots@[j].0@ == order[j]);
        }
        assert forall|k: Invocation| order.contains(k) <==> #[trigger] self@.contains_key(k) by {
            if order.contains(k) {
                let i = choose|i: int| 0 <= i < order.len() && order[i] == k;
                assert(self.at(i, k));
            }
            if self@.contains_key(k) {
                let i = choose|i: int| self.at(i, k);
                assert(order[i] == k);
            }
        }
    }

    /// An empty map.
    pub fn new() -> (map: Self)
        ensures
            map.wf(),
            map@ == Map::<Invocation, V::V>::empty(),
            map.order() == Seq::<Invocation>::empty(),
    {
        let map = InvocationMap { slots: Vec::new() };
        assert(map.order() =~= Seq::<Invocation>::empty());
        assert(map@ =~= Map::<Invocation, V::V>::empty()) by {
            assert forall|k: Invocation| !map@.contains_key(k) by {
                if exists|i: int| map.at(i, k) {
                    let i = choose|i: int| map.at(i, k);
                    assert(map.at(i, k));
                }
            }
        }
        map
    }

    /// Number of invocations in the map.
    pub fn len(&self) -> (len: usize)
        ensures
            len == self.order().len(),
    {
        self.slots.len()
    }

    /// The invocation in slot `i`.
    pub fn key(&self, i: usize) -> (key: &SystemInvocation)
        requires
            i < self.order().len(),
        ensures
            key@ == self.order()[i as int],
    {
        &self.slots[i].0
    }

    fn find(&self, key: &SystemInvocation) -> (at: Option<usize>)
        requires
            self.wf(),
        ensures
            match at {
                Some(i) => i < self.slots@.len() && self.slots@[i as int].0@ == key@
                    && self@.contains_key(key@) && self@[key@] == self.slots@[i as int].1@,
                None => !self@.contains_key(key@),
            },
    {
        let mut i: usize = 0;
        while i < self.slots.len()
            invariant
                self.wf(),
                i <= self.slots.len(),
                forall|j: int| 0 <= j < i ==> (#[trigger] self.slots@[j]).0@ != key@,
            decreases self.slots.len() - i,
        {
            if self.slots[i].0.same(key) {
                proof {
                    self.lemma_at(i as int);
                }
                return Some(i);
            }
            i = i + 1;
        }
        assert(!self@.contains_key(key@)) by {
            if exists|j: int| self.at(j, key@) {
                let j = choose|j: int| self.at(j, key@);
                assert(self.slots@[j].0@ == key@);
            }
        }
        None
    }

    /// The value of `key`, if present.
    pub fn get(&self, key: &SystemInvocation) -> (value: Option<&V>)
        requires
            self.wf(),
        ensures
            match value {
                Some(v) => self@.contains_key(key@) && v@ == self@[key@],
                None => !self@.contains_key(key@),
            },
    {
        match self.find(key) {
            Some(i) => Some(&self.slots[i].1),
            None => None,
        }
    }

    /// Whether `key` is present.
    pub fn contains(&self, key: &SystemInvocation) -> (present: bool)
        requires
            self.wf(),
        ensures
            present == self@.contains_key(key@),
    {
        self.find(key).is_some()
    }

    /// Takes `key` and its value out of the map.
    pub fn remove(&mut self, key: &SystemInvocation) -> (value: Option<V>)
        requires
            old(self).wf(),
        ensures
            final(self).wf(),
            final(self)@ == old(self)@.remove(key@),
            final(self).order() == without_invocation(old(self).order(), key@),
            match value {
                Some(v) => old(self)@.contains_key(key@) && v@ == old(self)@[key@],
                None => !old(self)@.contains_key(key@),
            },
    {
        match self.find(key) {
            None => {
                assert(self@ =~= old(self)@.remove(key@));
                proof {
                    self.lemma_order();
                }
                None
            },
            Some(at) => {
                let ghost before = *self;
                let (_, value) = self.slots.remove(at);
                proof {
                    let now = *self;
                    assert(now.slots@ == before.slots@.remove(at as int));
                    assert forall|i: int| 0 <= i < now.slots@.len() implies now.slots@[i]
                        == before.slots@[if i < at { i } else { i + 1 }] by {}
                    assert(now.wf());
                    assert forall|k: Invocation| #[trigger]
                        now@.contains_key(k) <==> before@.remove(key@).contains_key(k) by {
                        if now@.contains_key(k) {
                            let i = choose|i: int| now.at(i, k);
                            assert(now.at(i, k));
                            let b = if i < at { i } else { i + 1 };
                            before.lemma_at(b);
                            assert(before.slots@[b].0@ != before.slots@[at as int].0@);
                        }
                        if before@.remove(key@).contains_key(k) {
                            let b = choose|b: int| before.at(b, k);
                            assert(before.at(b, k));
                            let i = if b < at { b } else { b - 1 };
                            assert(now.slots@[i] == before.slots@[b]);
                            assert(now.at(i, k));
                        }
                    }
                    assert forall|k: Invocation| #[trigger] now@.contains_key(k) implies now@[k]
                        == before@[k] by {
                        let i = choose|i: int| now.at(i, k);
                        assert(now.at(i, k));
                        now.lemma_at(i);
                        let b = if i < at { i } else { i + 1 };
                        before.lemma_at(b);
                    }
                    assert(now@ =~= before@.remove(key@));
                    let order = before.order();
                    before.lemma_order();
                    assert(order[at as int] == key@);
                    assert(order.contains(key@));
                    let found = order.index_of(key@);
                    assert(0 <= found < order.len() && order[found] == key@);
                    assert(found == at);
                    assert(now.order() =~= order.remove(at as int));
                }
                Some(value)
            },
        }
    }

    /// Sets the value of `key`.
    pub fn insert(&mut self, key: SystemInvocation, value: V)
        requires
            old(self).wf(),
        ensures
            final(self).wf(),
            final(self)@ == old(self)@.insert(key@, value@),
            final(self).order() == without_invocation(old(self).order(), key@).push(key@),
    {
        let _ = self.remove(&key);
        let ghost before = *self;
        let ghost k0 = key@;
        let ghost v0 = value@;
        self.slots.push((key, value));
        proof {
            let now = *self;
            let last = before.slots@.len() as int;
            assert forall|i: int| 0 <= i < last implies now.slots@[i] == before.slots@[i]
                && now.slots@[i].0@ != k0 by {
                before.lemma_at(i);
            }
            assert(now.wf());
            now.lemma_at(last);
            assert forall|k: Invocation| #[trigger]
                now@.contains_key(k) <==> before@.insert(k0, v0).contains_key(k) by {
                if now@.contains_key(k) {
                    let i = choose|i: int| now.at(i, k);
                    assert(now.at(i, k));
                    if i < last {
                        before.lemma_at(i);
                    }
                }
                if before@.contains_key(k) {
                    let b = choose|b: int| before.at(b, k);
                    assert(before.at(b, k));
                    assert(now.at(b, k));
                }
            }
            assert forall|k: Invocation| #[trigger] now@.contains_key(k) implies now@[k]
                == before@.insert(k0, v0)[k] by {
                let i = choose|i: int| now.at(i, k);
                assert(now.at(i, k));
                now.lemma_at(i);
                if i < last {
                    before.lemma_at(i);
                }
            }
            assert(now@ =~= before@.insert(k0, v0));
            assert(now.order() =~= before.order().push(k0));
            assert(before@.insert(k0, v0) =~= old(self)@.insert(k0, v0));
        }
    }

    /// The invocations of the map that touch one of `entities`, in slot order.
    fn touched_keys(&self, entities: &Vec<Entity>) -> (keys: Vec<SystemInvocation>)
        requires
            self.wf(),
        ensures
            forall|i: int|
                0 <= i < keys@.len() ==> (#[trigger] keys@[i])@.touched_by(entities@),
            forall|k: Invocation|
                self@.contains_key(k) && k.touched_by(entities@) ==> exists|i: int|
                    0 <= i < keys@.len() && (#[trigger] keys@[i])@ == k,
    {
        let mut keys: Vec<SystemInvocation> = Vec::new();
        let ghost order = self.order();
        let mut i: usize = 0;
        while i < self.slots.len()
            invariant
                self.wf(),
                order == self.order(),
                order.len() == self.slots@.len(),
                i <= self.slots@.len(),
                forall|j: int|
                    0 <= j < keys@.len() ==> (#[trigger] keys@[j])@.touched_by(entities@),
                forall|j: int|
                    0 <= j < i && (#[trigger] order[j]).touched_by(entities@) ==> exists|l: int|
                        0 <= l < keys@.len() && (#[trigger] keys@[l])@ == order[j],
            decreases self.slots@.len() - i,
        {
            let ghost before = keys@;
            assert(order[i as int] == self.slots@[i as int].0@);
            if self.slots[i].0.touches(entities) {
                keys.push(self.slots[i].0.duplicate());
                assert(keys@[before.len() as int]@ == order[i as int]);
            }
            proof {
                assert forall|j: int|
                    0 <= j < i + 1 && (#[trigger] order[j]).touched_by(entities@) implies exists|
                    l: int,
                |
                    0 <= l < keys@.len() && (#[trigger] keys@[l])@ == order[j] by {
                    if j < i {
                        let l = choose|l: int|
                            0 <= l < before.len() && (#[trigger] before[l])@ == order[j];
                        assert(keys@[l] == before[l]);
                    }
                }
            }
            i = i + 1;
        }
        proof {
            self.lemma_order();
            assert forall|k: Invocation|
                self@.contains_key(k) && k.touched_by(entities@) implies exists|l: int|
                0 <= l < keys@.len() && (#[trigger] keys@[l])@ == k by {
                assert(order.contains(k));
                let j = choose|j: int| 0 <= j < order.len() && order[j] == k;
                assert(order[j].touched_by(entities@));
            }
        }
        keys
    }

    /// Forgets every invocation that touches one of `entities`.
    pub fn forget_touched(&mut self, entities: &Vec<Entity>)
        requires
            old(self).wf(),
        ensures
            final(self).wf(),
            final(self)@ == untouched(old(self)@, entities@),
    {
        let keys = self.touched_keys(entities);
        let ghost before = self@;
        let mut i: usize = 0;
        while i < keys.len()
            invariant
                self.wf(),
                i <= keys@.len(),
                forall|j: int|
                    0 <= j < keys@.len() ==> (#[trigger] keys@[j])@.touched_by(entities@),
                forall|k: Invocation| #[trigger]
                    self@.contains_key(k) ==> before.contains_key(k) && self@[k] == before[k],
                forall|k: Invocation|
                    before.contains_key(k) && !k.touched_by(entities@)
                        ==> #[trigger] self@.contains_key(k),
                forall|j: int|
                    0 <= j < i ==> !self@.contains_key((#[trigger] keys@[j])@),
            decreases keys@.len() - i,
        {
            let _ = self.remove(&keys[i]);
            i = i + 1;
        }
        proof {
            assert forall|k: Invocation| #[trigger] self@.contains_key(k) implies !k.touched_by(
                entities@,
            ) by {
                if k.touched_by(entities@) {
                    let l = choose|l: int| 0 <= l < keys@.len() && (#[trigger] keys@[l])@ == k;
                    assert(!self@.contains_key(keys@[l]@));
                }
            }
            assert(self@ =~= untouched(before, entities@));
        }
    }
}

/// The entries of a map whose invocation touches none of `entities`.
pub open spec fn untouched<V>(map: Map<Invocation, V>, entities: Seq<Entity>) -> Map<
    Invocation,
    V,
> {
    map.restrict(Set::new(|k: Invocation| !k.touched_by(entities)))
}

impl InvocationMap<Vec<Entity>> {
    /// A copy of the map.
    pub fn share(&self) -> (copy: Self)
        requires
            self.wf(),
        ensures
            copy.wf(),
            copy@ == self@,
    {
        let mut copy: InvocationMap<Vec<Entity>> = InvocationMap::new();
        let ghost order = self.order();
        let mut i: usize = 0;
        while i < self.slots.len()
            invariant
                self.wf(),
                copy.wf(),
                order == self.order(),
                i <= self.slots@.len(),
                order.len() == self.slots@.len(),
                forall|k: Invocation| #[trigger]
                    copy@.contains_key(k) <==> order.take(i as int).contains(k),
                forall|k: Invocation| #[trigger]
                    copy@.contains_key(k) ==> self@.contains_key(k) && copy@[k] == self@[k],
            decreases self.slots@.len() - i,
        {
            copy.insert(self.slots[i].0.duplicate(), copy_entities(&self.slots[i].1));
            proof {
                self.lemma_at(i as int);
                let key = order[i as int];
                assert(key == self.slots@[i as int].0@);
                let before = order.take(i as int);
                let now = order.take(i + 1);
                assert(now =~= before.push(key));
                assert forall|k: Invocation| #[trigger]
                    copy@.contains_key(k) <==> now.contains(k) by {
                    if before.contains(k) {
                        let j = choose|j: int| 0 <= j < before.len() && before[j] == k;
                        assert(now[j] == k);
                    }
                    assert(now[i as int] == key);
                }
            }
            i = i + 1;
        }
        proof {
            assert(order.take(order.len() as int) =~= order);
            self.lemma_order();
            assert(copy@ =~= self@);
        }
        copy
    }
}

} // verus!
