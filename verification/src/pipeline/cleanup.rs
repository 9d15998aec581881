//! Taking components out of a database, and cleaning up ephemeral entities.

use crate::component::{Component, ComponentId};
use crate::entity::{Entity, Untyped};
use crate::invocation::{without_invocation, Invocation, SystemInvocation};
use crate::keys::set_elements;
use crate::model::{ascending, sorted_keys, Entry, Origin};
use crate::pipeline::run::{Data, DataModel};
use crate::pipeline::tables::{
    invocations_view, lemma_cleared, lemma_swept, SweepModel, TablesModel,
};
use crate::store::ComponentEntry;
use std::collections::BTreeSet;
use std::sync::Arc;
use vstd::prelude::*;

verus! {

/// Marks a universe with a component type of ephemeral entities: entities that
/// live until the query that they were inserted for is answered.
pub trait EphemeralComponent: Component {
    /// The component type of ephemeral entities.
    spec fn ephemeral() -> ComponentId;

    /// Being ephemeral is nothing that a system could observe.
    proof fn ephemeral_laws()
        ensures
            !Self::tracks(Self::ephemeral()),
    ;

    /// The component type of ephemeral entities.
    fn ephemeral_id() -> (kind: ComponentId)
        ensures
            kind == Self::ephemeral(),
    ;
}

/// The entities of a set of ids, ascending.
pub open spec fn listing(ids: Set<u64>) -> Seq<Entity> {
    sorted_keys(ids).map_values(|id: u64| Entity::of(id))
}

/// How many ids are not in a set.
pub open spec fn ids_left(ids: Set<u64>) -> nat {
    sorted_keys(ids.complement()).len()
}

/// Fewer ids are left once a set has grown.
pub proof fn lemma_fewer_left(ids: Set<u64>, more: Set<u64>)
    requires
        ids.disjoint(more),
        !more.is_empty(),
    ensures
        ids_left(ids.union(more)) < ids_left(ids),
{
    let id = choose|id: u64| more.contains(id);
    assert(more.contains(id)) by {
        if forall|id: u64| !more.contains(id) {
            assert(more =~= Set::empty());
        }
    }
    let all = sorted_keys(ids.complement());
    let rest = sorted_keys(ids.union(more).complement());
    crate::model::lemma_sorted_keys_list(ids.complement());
    crate::model::lemma_sorted_keys_list(ids.union(more).complement());
    lemma_ascending_distinct(all);
    lemma_ascending_distinct(rest);
    all.unique_seq_to_set();
    rest.unique_seq_to_set();
    assert(rest.to_set().subset_of(all.to_set().remove(id)));
    assert(all.to_set().contains(id));
    vstd::set_lib::lemma_len_subset(rest.to_set(), all.to_set().remove(id));
}

proof fn lemma_ascending_distinct(keys: Seq<u64>)
    requires
        ascending(keys),
    ensures
        keys.no_duplicates(),
{
    assert forall|i: int, j: int|
        0 <= i < keys.len() && 0 <= j < keys.len() && i != j implies keys[i] != keys[j] by {
        if i < j {
            assert(keys[i] < keys[j]);
        } else {
            assert(keys[j] < keys[i]);
        }
    }
}

/// The invocations that are keyed by one of `entities`.
pub open spec fn touched_in(order: Seq<Invocation>, entities: Seq<Entity>) -> Seq<Invocation>
    decreases order.len(),
{
    if order.len() == 0 {
        Seq::empty()
    } else {
        let before = touched_in(order.drop_last(), entities);
        if order.last().touched_by(entities) {
            before.push(order.last())
        } else {
            before
        }
    }
}

impl<C: Component> DataModel<C> {
    /// An invocation was forgotten; what it derived stays.
    pub open spec fn forgotten(self, owner: Invocation) -> Self {
        DataModel {
            memo: self.memo.remove(owner),
            order: without_invocation(self.order, owner),
            ..self
        }
    }

    /// Several invocations were forgotten.
    pub open spec fn forgotten_each(self, owners: Seq<Invocation>) -> Self
        decreases owners.len(),
    {
        if owners.len() == 0 {
            self
        } else {
            self.forgotten_each(owners.drop_last()).forgotten(owners.last())
        }
    }

    /// The invocations that are keyed by one of `entities` were forgotten.
    pub open spec fn without_touched(self, entities: Seq<Entity>) -> Self {
        self.forgotten_each(touched_in(self.order, entities))
    }

    /// One step of the cleanup: everything that was derived from the frontier
    /// goes.
    pub open spec fn receded(self, frontier: Set<u64>) -> Self {
        let list = listing(frontier);
        let quiet = self.without_touched(list);
        DataModel { tables: quiet.tables.swept(SweepModel::Touched(list)), ..quiet }
    }

    /// The entities that lose a component in one step of the cleanup.
    pub open spec fn hit(self, frontier: Set<u64>) -> Set<u64> {
        self.tables.losers(SweepModel::Touched(listing(frontier)))
    }

    /// What was derived from the frontier goes, then what was derived from the
    /// entities that lost a component, and so on; `done` were on a frontier that
    /// way before.
    pub open spec fn unravelled(self, frontier: Set<u64>, done: Set<u64>) -> Self
        decreases ids_left(done),
    {
        if frontier.is_empty() {
            self
        } else {
            let next = self.hit(frontier).difference(done);
            if next.is_empty() {
                self.receded(frontier)
            } else {
                proof {
                    lemma_fewer_left(done, next);
                }
                self.receded(frontier).unravelled(next, done.union(next))
            }
        }
    }

    /// Several entities were removed, in order.
    pub open spec fn cleared_each(self, entities: Seq<Entity>) -> Self
        decreases entities.len(),
    {
        if entities.len() == 0 {
            self
        } else {
            let before = self.cleared_each(entities.drop_last());
            DataModel { tables: before.tables.cleared(entities.last()), ..before }
        }
    }

    /// The invocations that derived the components of removed entities.
    pub open spec fn makers_each(self, entities: Seq<Entity>) -> Seq<Invocation>
        decreases entities.len(),
    {
        if entities.len() == 0 {
            Seq::empty()
        } else {
            self.makers_each(entities.drop_last()) + self.cleared_each(
                entities.drop_last(),
            ).tables.makers(entities.last())
        }
    }

    /// The ephemeral entities are gone, with everything that was derived from
    /// them and the invocations that derived anything on them.
    pub open spec fn cleaned(self, ephemeral: ComponentId) -> Self {
        let quiet = self.unravelled(self.tables.table(ephemeral).dom(), Set::empty());
        let entities = listing(quiet.tables.table(ephemeral).dom());
        quiet.cleared_each(entities).without_touched(entities).dropped_each(
            quiet.makers_each(entities),
        )
    }

    /// A component was taken out; if a system derived it, its invocation is
    /// forgotten with all that it derived.
    pub open spec fn taken(self, kind: ComponentId, entity: Entity) -> Self {
        let without = DataModel { tables: self.tables.removed(kind, entity), ..self };
        match self.tables.entry(kind, entity) {
            Some(entry) => match entry.owner {
                Some(owner) => without.dropped(owner),
                None => without,
            },
            None => without,
        }
    }
}

/// The entities of a set, ascending.
fn list_set(ids: &BTreeSet<u64>) -> (entities: Vec<Entity>)
    ensures
        entities@ == listing(ids@),
{
    let all = set_elements(ids);
    let mut entities: Vec<Entity> = Vec::new();
    let mut i: usize = 0;
    while i < all.len()
        invariant
            i <= all@.len(),
            entities@ =~= all@.map_values(|id: u64| Entity::<Untyped>::of(id)).take(i as int),
        decreases all@.len() - i,
    {
        entities.push(Entity::from_raw(all[i]));
        i = i + 1;
    }
    assert(entities@ =~= listing(ids@));
    entities
}

fn gather(ids: &Vec<u64>) -> (set: BTreeSet<u64>)
    ensures
        set@ == ids@.to_set(),
{
    let mut set: BTreeSet<u64> = BTreeSet::new();
    let mut i: usize = 0;
    assert(set@ =~= ids@.take(0).to_set());
    while i < ids.len()
        invariant
            i <= ids@.len(),
            set@ == ids@.take(i as int).to_set(),
        decreases ids@.len() - i,
    {
        let ghost before = set@;
        set.insert(ids[i]);
        proof {
            let less = ids@.take(i as int);
            let more = ids@.take(i + 1);
            assert forall|x: u64| more.to_set().contains(x) <==> less.to_set().insert(
                ids@[i as int],
            ).contains(x) by {
                if less.contains(x) {
                    let k = choose|k: int| 0 <= k < less.len() && less[k] == x;
                    assert(more[k] == x);
                }
                if more.contains(x) {
                    let k = choose|k: int| 0 <= k < more.len() && more[k] == x;
                    if k < i {
                        assert(less[k] == x);
                    }
                }
                assert(more[i as int] == ids@[i as int]);
            }
            assert(set@ =~= more.to_set());
        }
        i = i + 1;
    }
    assert(ids@.take(ids@.len() as int) =~= ids@);
    set
}

impl<C: Component> Data<C> {
    fn touched_invocations(&self, entities: &Vec<Entity>) -> (owners: Vec<SystemInvocation>)
        ensures
            invocations_view(owners@) == touched_in(self@.order, entities@),
    {
        let ghost order = self@.order;
        let mut owners: Vec<SystemInvocation> = Vec::new();
        let count: usize = self.memo.len();
        let mut i: usize = 0;
        assert(invocations_view(owners@) =~= Seq::<Invocation>::empty());
        while i < count
            invariant
                count == order.len(),
                order == self.memo.order(),
                i <= count,
                invocations_view(owners@) == touched_in(order.take(i as int), entities@),
            decreases count - i,
        {
            assert(order.take(i + 1).drop_last() =~= order.take(i as int));
            let owner = self.memo.key(i);
            if owner.touches(entities) {
                let ghost before = owners@;
                owners.push(owner.duplicate());
                assert(invocations_view(owners@) =~= invocations_view(before).push(owner@));
            }
            i = i + 1;
        }
        assert(order.take(order.len() as int) =~= order);
        owners
    }

    /// Forgets the invocations that are keyed by one of `entities`.
    pub fn remove_memo_touched_by(&mut self, entities: &Vec<Entity>)
        requires
            old(self).wf(),
        ensures
            final(self).wf(),
            final(self)@ == old(self)@.without_touched(entities@),
    {
        let owners = self.touched_invocations(entities);
        let ghost all = invocations_view(owners@);
        let mut i: usize = 0;
        while i < owners.len()
            invariant
                i <= owners@.len(),
                all == invocations_view(owners@),
                self.wf(),
                self@ == old(self)@.forgotten_each(all.take(i as int)),
            decreases owners@.len() - i,
        {
            assert(all.take(i + 1).drop_last() =~= all.take(i as int));
            self.memo.remove(&owners[i]);
            i = i + 1;
        }
        assert(all.take(all.len() as int) =~= all);
    }

    fn unravel(&mut self, frontier: BTreeSet<u64>)
        requires
            old(self).wf(),
        ensures
            final(self).wf(),
            final(self)@ == old(self)@.unravelled(frontier@, Set::empty()),
    {
        let mut frontier = frontier;
        let mut done: BTreeSet<u64> = BTreeSet::new();
        let ghost wanted = self@.unravelled(frontier@, done@);
        assert(done@ =~= Set::<u64>::empty());
        while !frontier.is_empty()
            invariant
                self.wf(),
                self@.unravelled(frontier@, done@) == wanted,
            decreases ids_left(done@), if frontier@.is_empty() {
                0int
            } else {
                1
            },
        {
            let ghost before = self@;
            let ghost before_done = done@;
            let list = list_set(&frontier);
            self.remove_memo_touched_by(&list);
            proof {
                lemma_forgetting_keeps_tables(before, touched_in(before.order, list@));
            }
            let losers = self.tables.remove_derived_touched_by(&list);
            let hit = gather(&losers);
            let all = set_elements(&hit);
            let mut next: BTreeSet<u64> = BTreeSet::new();
            let mut i: usize = 0;
            proof {
                assert(!frontier@.is_empty());
                assert(hit@ =~= before.hit(frontier@));
                assert(self@ =~= before.receded(frontier@));
                assert(all@.take(0).to_set() =~= Set::<u64>::empty());
                assert(next@ =~= all@.take(0).to_set().difference(before_done));
                assert(done@ =~= before_done.union(next@));
            }
            while i < all.len()
                invariant
                    i <= all@.len(),
                    next@ == all@.take(i as int).to_set().difference(before_done),
                    done@ == before_done.union(next@),
                decreases all@.len() - i,
            {
                let ghost next_before = next@;
                let fresh = done.insert(all[i]);
                if fresh {
                    next.insert(all[i]);
                }
                proof {
                    let id = all@[i as int];
                    let less = all@.take(i as int);
                    let more = all@.take(i + 1);
                    assert forall|x: u64| more.to_set().contains(x) <==> less.to_set().insert(
                        id,
                    ).contains(x) by {
                        if less.contains(x) {
                            let k = choose|k: int| 0 <= k < less.len() && less[k] == x;
                            assert(more[k] == x);
                        }
                        if more.contains(x) {
                            let k = choose|k: int| 0 <= k < more.len() && more[k] == x;
                            if k < i {
                                assert(less[k] == x);
                            }
                        }
                        assert(more[i as int] == id);
                    }
                    assert(next@ =~= more.to_set().difference(before_done));
                    assert(done@ =~= before_done.union(next@));
                }
                i = i + 1;
            }
            proof {
                assert(all@.take(all@.len() as int) =~= all@);
                assert(next@ =~= before.hit(frontier@).difference(before_done));
                if !next@.is_empty() {
                    lemma_fewer_left(before_done, next@);
                } else {
                    assert(done@ =~= before_done);
                }
            }
            frontier = next;
        }
    }
}

impl<C: Component> Data<C> {
    /// Whether an entity carries the component type of ephemeral entities.
    pub fn has_ephemeral_entities(&self, ephemeral: ComponentId) -> (any: bool)
        ensures
            any == !self@.tables.table(ephemeral).dom().is_empty(),
    {
        let entities = self.tables.entities_with(ephemeral);
        proof {
            crate::model::lemma_sorted_keys_list(self@.tables.table(ephemeral).dom());
            if entities@.len() > 0 {
                assert(entities@.to_set().contains(entities@[0]));
            } else {
                assert(entities@.to_set() =~= Set::<u64>::empty());
            }
        }
        entities.len() > 0
    }

    fn ephemeral_entities(&self, ephemeral: ComponentId) -> (ids: BTreeSet<u64>)
        ensures
            ids@ == self@.tables.table(ephemeral).dom(),
    {
        let entities = self.tables.entities_with(ephemeral);
        proof {
            crate::model::lemma_sorted_keys_list(self@.tables.table(ephemeral).dom());
        }
        gather(&entities)
    }

    fn clear_entities(&mut self, entities: &Vec<Entity>) -> (makers: Vec<SystemInvocation>)
        requires
            old(self).wf(),
        ensures
            final(self).wf(),
            final(self)@ == old(self)@.cleared_each(entities@),
            invocations_view(makers@) == old(self)@.makers_each(entities@),
    {
        let mut makers: Vec<SystemInvocation> = Vec::new();
        let mut i: usize = 0;
        assert(invocations_view(makers@) =~= Seq::<Invocation>::empty());
        while i < entities.len()
            invariant
                i <= entities@.len(),
                self.wf(),
                self@ == old(self)@.cleared_each(entities@.take(i as int)),
                invocations_view(makers@) == old(self)@.makers_each(entities@.take(i as int)),
            decreases entities@.len() - i,
        {
            assert(entities@.take(i + 1).drop_last() =~= entities@.take(i as int));
            assert(entities@.take(i + 1).last() == entities@[i as int]);
            let ghost before = makers@;
            let mut more = self.tables.remove_entity(entities[i]);
            let ghost added = more@;
            makers.append(&mut more);
            assert(invocations_view(makers@) =~= invocations_view(before) + invocations_view(
                added,
            ));
            i = i + 1;
        }
        assert(entities@.take(entities@.len() as int) =~= entities@);
        makers
    }

    /// Removes the ephemeral entities, everything that was derived from them, and
    /// the invocations that derived anything on them.
    pub fn cleanup_ephemeral_entities(&mut self, ephemeral: ComponentId)
        requires
            old(self).wf(),
        ensures
            final(self).wf(),
            final(self)@ == old(self)@.cleaned(ephemeral),
    {
        let first = self.ephemeral_entities(ephemeral);
        self.unravel(first);
        let rest = self.ephemeral_entities(ephemeral);
        let entities = list_set(&rest);
        let makers = self.clear_entities(&entities);
        self.remove_memo_touched_by(&entities);
        self.drop_invocations(&makers);
    }

    /// Takes a component out; if a system derived it, its invocation is forgotten
    /// with all that it derived.
    pub fn take_component(&mut self, kind: ComponentId, entity: Entity) -> (value: Option<Arc<C>>)
        requires
            old(self).wf(),
        ensures
            final(self).wf(),
            final(self)@ == old(self)@.taken(kind, entity),
            match value {
                Some(value) => old(self)@.tables.entry(kind, entity) matches Some(entry)
                    && entry.value == value.model(),
                None => old(self)@.tables.entry(kind, entity) is None,
            },
    {
        match self.tables.remove_component(kind, entity) {
            None => None,
            Some(entry) => {
                let ComponentEntry { value, owner, .. } = entry;
                if let Some(owner) = owner {
                    self.drop_invocation(&owner);
                }
                Some(value)
            },
        }
    }
}

/// Forgetting invocations leaves the tables as they are.
pub proof fn lemma_forgetting_keeps_tables<C: Component>(
    data: DataModel<C>,
    owners: Seq<Invocation>,
)
    ensures
        data.forgotten_each(owners).tables == data.tables,
    decreases owners.len(),
{
    if owners.len() > 0 {
        lemma_forgetting_keeps_tables(data, owners.drop_last());
    }
}

/// Nothing is added, and what stays is as it was.
pub open spec fn only_less<C: Component>(before: TablesModel<C>, after: TablesModel<C>) -> bool {
    forall|kind: ComponentId, entity: Entity| #[trigger]
        after.entry(kind, entity) is Some ==> after.entry(kind, entity) == before.entry(
            kind,
            entity,
        )
}

/// Whether an entry was put by a caller.
pub open spec fn is_base<C: Component>(entry: Option<Entry<C>>) -> bool {
    entry matches Some(entry) && entry.origin == Origin::Base
}

/// What callers put stays.
pub open spec fn keeps_base<C: Component>(before: TablesModel<C>, after: TablesModel<C>) -> bool {
    forall|kind: ComponentId, entity: Entity|
        is_base(#[trigger] before.entry(kind, entity)) ==> after.entry(kind, entity)
            == before.entry(kind, entity)
}

/// A sweep takes exactly the derived entries that it is to take.
pub proof fn lemma_sweep_takes<C: Component>(tables: TablesModel<C>, sweep: SweepModel)
    ensures
        only_less(tables, tables.swept(sweep)),
        keeps_base(tables, tables.swept(sweep)),
        forall|kind: ComponentId, entity: Entity|
            #![trigger tables.entry(kind, entity)]
            tables.entry(kind, entity) matches Some(entry) && sweep.takes(entry) ==> tables.swept(
                sweep,
            ).entry(kind, entity) is None,
{
    lemma_swept(tables, sweep);
    let after = tables.swept(sweep);
    assert forall|kind: ComponentId, entity: Entity| #[trigger]
        after.entry(kind, entity) is Some implies after.entry(kind, entity) == tables.entry(
        kind,
        entity,
    ) by {
        assert(after.table(kind) == tables.table(kind).remove_keys(tables.swept_keys(kind, sweep)));
    }
    assert forall|kind: ComponentId, entity: Entity|
        is_base(#[trigger] tables.entry(kind, entity)) implies after.entry(kind, entity)
        == tables.entry(kind, entity) by {
        assert(after.table(kind) == tables.table(kind).remove_keys(tables.swept_keys(kind, sweep)));
    }
    assert forall|kind: ComponentId, entity: Entity|
        #![trigger tables.entry(kind, entity)]
        tables.entry(kind, entity) matches Some(entry) && sweep.takes(entry) implies after.entry(
        kind,
        entity,
    ) is None by {
        assert(after.table(kind) == tables.table(kind).remove_keys(tables.swept_keys(kind, sweep)));
        assert(tables.swept_keys(kind, sweep).contains(entity.id()));
    }
}

proof fn lemma_unravelling<C: Component>(
    data: DataModel<C>,
    frontier: Set<u64>,
    done: Set<u64>,
    id: u64,
)
    ensures
        only_less(data.tables, data.unravelled(frontier, done).tables),
        keeps_base(data.tables, data.unravelled(frontier, done).tables),
        frontier.contains(id) ==> forall|kind: ComponentId, entity: Entity|
            !keyed_by(#[trigger] data.unravelled(frontier, done).tables.entry(kind, entity), id),
    decreases ids_left(done),
{
    let after = data.unravelled(frontier, done);
    if frontier.is_empty() {
        assert(after == data);
    } else {
        let list = listing(frontier);
        let sweep = SweepModel::Touched(list);
        let middle = data.receded(frontier);
        lemma_forgetting_keeps_tables(data, touched_in(data.order, list));
        lemma_sweep_takes(data.tables, sweep);
        assert(middle.tables == data.tables.swept(sweep));
        if frontier.contains(id) {
            crate::model::lemma_sorted_keys_list(frontier);
            assert(sorted_keys(frontier).to_set().contains(id));
            let k = choose|k: int| 0 <= k < sorted_keys(frontier).len() && sorted_keys(frontier)[k]
                == id;
            assert(list[k] == Entity::<Untyped>::of(id));
            assert forall|kind: ComponentId, entity: Entity|
                !keyed_by(#[trigger] middle.tables.entry(kind, entity), id) by {
                if keyed_by(middle.tables.entry(kind, entity), id) {
                    let owner = middle.tables.entry(kind, entity)->0.owner->0;
                    assert(data.tables.entry(kind, entity) == middle.tables.entry(kind, entity));
                    assert(owner.touched_by(list)) by {
                        let i = choose|i: int|
                            0 <= i < owner.keys.len() && (#[trigger] owner.keys[i]).id() == id;
                        crate::entity::lemma_entity_is_its_id(owner.keys[i], list[k]);
                        assert(list.contains(owner.keys[i]));
                    }
                    assert(sweep.takes(data.tables.entry(kind, entity)->0));
                }
            }
        }
        let next = data.hit(frontier).difference(done);
        if !next.is_empty() {
            lemma_fewer_left(done, next);
            lemma_unravelling(middle, next, done.union(next), id);
            assert(only_less(data.tables, after.tables));
            assert(keeps_base(data.tables, after.tables)) by {
                assert forall|kind: ComponentId, entity: Entity|
                    is_base(#[trigger] data.tables.entry(kind, entity)) implies after.tables.entry(
                    kind,
                    entity,
                ) == data.tables.entry(kind, entity) by {
                    assert(middle.tables.entry(kind, entity) == data.tables.entry(kind, entity));
                }
            }
            if frontier.contains(id) {
                assert forall|kind: ComponentId, entity: Entity|
                    !keyed_by(#[trigger] after.tables.entry(kind, entity), id) by {
                    if after.tables.entry(kind, entity) is Some {
                        assert(middle.tables.entry(kind, entity) == after.tables.entry(
                            kind,
                            entity,
                        ));
                    }
                }
            }
        }
    }
}

/// Whether an entry was derived by an invocation that is keyed by an entity.
pub open spec fn keyed_by<C: Component>(entry: Option<Entry<C>>, id: u64) -> bool {
    entry matches Some(entry) && entry.origin == Origin::Derived && (entry.owner matches Some(owner)
        && exists|i: int| 0 <= i < owner.keys.len() && (#[trigger] owner.keys[i]).id() == id)
}

proof fn lemma_clearing<C: Component>(data: DataModel<C>, entities: Seq<Entity>)
    ensures
        forall|kind: ComponentId, entity: Entity| #[trigger]
            data.cleared_each(entities).tables.entry(kind, entity) == if crate::world::ids(
                entities,
            ).contains(entity.id()) {
                None
            } else {
                data.tables.entry(kind, entity)
            },
    decreases entities.len(),
{
    if entities.len() > 0 {
        let fewer = entities.drop_last();
        let before = data.cleared_each(fewer);
        let after = data.cleared_each(entities);
        lemma_clearing(data, fewer);
        lemma_cleared(before.tables, entities.last());
        let all = crate::world::ids(entities);
        let some = crate::world::ids(fewer);
        assert forall|id: u64| #[trigger] all.contains(id) <==> (some.contains(id) || id
            == entities.last().id()) by {
            if some.contains(id) {
                let k = choose|k: int| 0 <= k < some.len() && some[k] == id;
                assert(all[k] == id);
            }
            if all.contains(id) {
                let k = choose|k: int| 0 <= k < all.len() && all[k] == id;
                if k < some.len() {
                    assert(some[k] == id);
                }
            }
            assert(all[entities.len() - 1] == entities.last().id());
        }
        assert forall|kind: ComponentId, entity: Entity| #[trigger]
            after.tables.entry(kind, entity) == if all.contains(entity.id()) {
                None
            } else {
                data.tables.entry(kind, entity)
            } by {
            assert(before.tables.cleared(entities.last()).entry(kind, entity)
                == after.tables.entry(kind, entity));
        }
    } else {
        assert(data.cleared_each(entities) == data);
        assert forall|id: u64| !crate::world::ids(entities).contains(id) by {}
    }
}

proof fn lemma_dropping<C: Component>(data: DataModel<C>, owners: Seq<Invocation>)
    ensures
        only_less(data.tables, data.dropped_each(owners).tables),
        keeps_base(data.tables, data.dropped_each(owners).tables),
    decreases owners.len(),
{
    if owners.len() > 0 {
        let before = data.dropped_each(owners.drop_last());
        lemma_dropping(data, owners.drop_last());
        lemma_sweep_takes(before.tables, SweepModel::Owned(owners.last()));
        let after = data.dropped_each(owners);
        assert(after.tables == before.tables.swept(SweepModel::Owned(owners.last())));
        assert forall|kind: ComponentId, entity: Entity|
            is_base(#[trigger] data.tables.entry(kind, entity)) implies after.tables.entry(
            kind,
            entity,
        ) == data.tables.entry(kind, entity) by {
            assert(before.tables.entry(kind, entity) == data.tables.entry(kind, entity));
        }
    }
}

/// A cleanup leaves no ephemeral entity and nothing that was derived from one,
/// adds nothing, and keeps whatever callers put on other entities.
pub proof fn lemma_cleanup<C: Component>(
    data: DataModel<C>,
    ephemeral: ComponentId,
    kind: ComponentId,
    entity: Entity,
    id: u64,
)
    ensures
        data.cleaned(ephemeral).tables.entry(ephemeral, entity) is None,
        data.cleaned(ephemeral).tables.entry(kind, entity) is Some ==> data.cleaned(
            ephemeral,
        ).tables.entry(kind, entity) == data.tables.entry(kind, entity),
        data.tables.table(ephemeral).contains_key(id) ==> !keyed_by(
            data.cleaned(ephemeral).tables.entry(kind, entity),
            id,
        ),
        is_base(data.tables.entry(kind, entity)) && !data.tables.has(ephemeral, entity)
            ==> data.cleaned(ephemeral).tables.entry(kind, entity) == data.tables.entry(
            kind,
            entity,
        ),
{
    let first = data.tables.table(ephemeral).dom();
    let quiet = data.unravelled(first, Set::empty());
    lemma_unravelling(data, first, Set::empty(), id);
    let left = quiet.tables.table(ephemeral).dom();
    let entities = listing(left);
    let cleared = quiet.cleared_each(entities);
    lemma_clearing(quiet, entities);
    let forgot = cleared.without_touched(entities);
    lemma_forgetting_keeps_tables(cleared, touched_in(cleared.order, entities));
    let owners = quiet.makers_each(entities);
    let after = forgot.dropped_each(owners);
    lemma_dropping(forgot, owners);
    assert(after == data.cleaned(ephemeral));
    crate::model::lemma_sorted_keys_list(left);
    let gone = crate::world::ids(entities);
    assert forall|x: u64| gone.contains(x) <==> left.contains(x) by {
        if left.contains(x) {
            assert(sorted_keys(left).to_set().contains(x));
            let k = choose|k: int| 0 <= k < sorted_keys(left).len() && sorted_keys(left)[k] == x;
            assert(gone[k] == x);
        }
        if gone.contains(x) {
            let k = choose|k: int| 0 <= k < gone.len() && gone[k] == x;
            assert(sorted_keys(left)[k] == x);
            assert(sorted_keys(left).to_set().contains(x));
        }
    }
    assert(forgot.tables.entry(ephemeral, entity) is None) by {
        assert(cleared.tables.entry(ephemeral, entity) == if gone.contains(entity.id()) {
            None
        } else {
            quiet.tables.entry(ephemeral, entity)
        });
    }
    assert(cleared.tables.entry(kind, entity) == if gone.contains(entity.id()) {
        None
    } else {
        quiet.tables.entry(kind, entity)
    });
    if after.tables.entry(kind, entity) is Some {
        assert(after.tables.entry(kind, entity) == forgot.tables.entry(kind, entity));
        assert(forgot.tables.entry(kind, entity) == quiet.tables.entry(kind, entity));
        assert(quiet.tables.entry(kind, entity) == data.tables.entry(kind, entity));
    }
    if is_base(data.tables.entry(kind, entity)) && !data.tables.has(ephemeral, entity) {
        assert(quiet.tables.entry(kind, entity) == data.tables.entry(kind, entity));
        assert(!left.contains(entity.id())) by {
            if left.contains(entity.id()) {
                assert(quiet.tables.entry(ephemeral, entity) is Some);
                assert(data.tables.entry(ephemeral, entity) is Some);
            }
        }
        assert(is_base(forgot.tables.entry(kind, entity)));
    }
}

} // verus!
