//! Row enumeration for queries.

use crate::access::{Access, AccessKind};
use crate::component::{ComponentId, RelationshipTarget};
use crate::entity::Entity;
use crate::model::ascending;
use crate::presence::lemma_mask_is_conjunction;
use crate::query::{
    bound_of, filter_access, filter_components, lemma_kept_superset_is_rows,
    lemma_rows_carry_requirements, members_of, observation, observed_components, part_access,
    part_components, row_deps, store_deps, tracked_of, Dep, PartMode, QueryModel, QueryPart,
    RowFilter, RowQuery,
};
use crate::world::{ids, World};
use vstd::prelude::*;

verus! {

impl RowQuery {
    /// A query with the given row data and conditions.
    pub fn new(parts: Vec<QueryPart>, filters: Vec<RowFilter>) -> (query: Self)
        ensures
            query@ == (QueryModel { parts: parts@, filters: filters@ }),
    {
        RowQuery { parts, filters }
    }

    /// Whether `entity` is a row of the query.
    pub fn matches<C: RelationshipTarget>(&self, world: &World<C>, entity: Entity) -> (admitted: bool)
        ensures
            admitted == self@.admits(world@, entity),
    {
        let mut i: usize = 0;
        while i < self.parts.len()
            invariant
                i <= self.parts@.len(),
                forall|j: int|
                    0 <= j < i ==> world@.has((#[trigger] self.parts@[j]).component, entity),
            decreases self.parts@.len() - i,
        {
            if !world.has(self.parts[i].component, entity) {
                assert(!world@.has(self@.parts[i as int].component, entity));
                return false;
            }
            i = i + 1;
        }
        let mut n: usize = 0;
        while n < self.filters.len()
            invariant
                n <= self.filters@.len(),
                forall|j: int| 0 <= j < n ==> (#[trigger] self.filters@[j]).admits(world@, entity),
            decreases self.filters@.len() - n,
        {
            if !self.filters[n].matches(world, entity) {
                assert(!self@.filters[n as int].admits(world@, entity));
                return false;
            }
            n = n + 1;
        }
        true
    }

    /// The candidates that are rows of the query, in the given order.
    pub fn rows_from_candidates<C: RelationshipTarget>(
        &self,
        world: &World<C>,
        candidates: &Vec<Entity>,
    ) -> (rows: Vec<Entity>)
        ensures
            rows@ == self@.kept(world@, candidates@),
    {
        let mut rows: Vec<Entity> = Vec::new();
        let mut i: usize = 0;
        assert(candidates@.take(0) =~= Seq::<Entity>::empty());
        while i < candidates.len()
            invariant
                i <= candidates@.len(),
                rows@ == self@.kept(world@, candidates@.take(i as int)),
            decreases candidates@.len() - i,
        {
            assert(candidates@.take(i + 1).drop_last() =~= candidates@.take(i as int));
            if self.matches(world, candidates[i]) {
                rows.push(candidates[i]);
            }
            i = i + 1;
        }
        assert(candidates@.take(candidates@.len() as int) =~= candidates@);
        rows
    }

    /// The components a row must carry: row data first, then conditions.
    pub fn required_components(&self) -> (kinds: Vec<ComponentId>)
        ensures
            kinds@ == self@.needs(),
    {
        let mut kinds: Vec<ComponentId> = Vec::new();
        let mut i: usize = 0;
        while i < self.parts.len()
            invariant
                i <= self.parts@.len(),
                kinds@ =~= part_components(self.parts@).take(i as int),
            decreases self.parts@.len() - i,
        {
            kinds.push(self.parts[i].component);
            i = i + 1;
        }
        let ghost first = part_components(self.parts@);
        assert(first.take(self.parts@.len() as int) =~= first);
        let mut n: usize = 0;
        assert(self.filters@.take(0) =~= Seq::<RowFilter>::empty());
        while n < self.filters.len()
            invariant
                n <= self.filters@.len(),
                kinds@ =~= first + filter_components(self.filters@.take(n as int)),
            decreases self.filters@.len() - n,
        {
            assert(self.filters@.take(n + 1).drop_last() =~= self.filters@.take(n as int));
            if let Some(kind) = self.filters[n].required_component() {
                kinds.push(kind);
            }
            n = n + 1;
        }
        assert(self.filters@.take(self.filters@.len() as int) =~= self.filters@);
        kinds
    }

    /// Rows that are sure to contain every row of the query: through the
    /// presence bits where they cover all required components, else through
    /// the smallest required store, else every id allocated so far.
    fn candidates<C: RelationshipTarget>(&self, world: &World<C>) -> (candidates: Vec<Entity>)
        requires
            world.wf(),
        ensures
            ascending(ids(candidates@)),
            forall|entity: Entity| #[trigger]
                self@.row_ids(world@).contains(entity.id()) ==> candidates@.contains(entity),
            self@.needs().len() == 0 ==> forall|i: int|
                0 <= i < candidates@.len() ==> (#[trigger] candidates@[i]).id()
                    < world@.next_entity,
    {
        let kinds = self.required_components();
        if kinds.len() == 0 {
            return all_entities(world);
        }
        if let Some(presence) = world.presence() {
            if let Some(mask) = presence.mask(&kinds) {
                let candidates = presence.entities_matching(&mask);
                proof {
                    assert forall|entity: Entity| #[trigger] self@.row_ids(world@).contains(
                        entity.id(),
                    ) implies candidates@.contains(entity) by {
                        crate::entity::lemma_entity_is_its_id(Entity::of(entity.id()), entity);
                        lemma_rows_carry_requirements(self@, world@, entity);
                        lemma_mask_is_conjunction(*presence, mask@, kinds@, entity);
                        assert forall|i: int| 0 <= i < kinds@.len() implies presence.has(
                            #[trigger] kinds@[i],
                            entity,
                        ) by {
                            assert(world@.has(kinds@[i], entity));
                            assert(presence.universe().contains(kinds@[i]));
                        }
                        assert(presence.has(kinds@[0], entity));
                        assert(presence.row(entity) is Some);
                    }
                    assert(ids(candidates@) =~= candidates@.map_values(
                        |entity: Entity| entity.id(),
                    ));
                }
                return candidates;
            }
        }
        let mut best: usize = 0;
        let mut best_len: usize = world.store_len(kinds[0]);
        let mut i: usize = 1;
        while i < kinds.len()
            invariant
                1 <= i <= kinds@.len(),
                best < kinds@.len(),
            decreases kinds@.len() - i,
        {
            let len = world.store_len(kinds[i]);
            if len < best_len {
                best_len = len;
                best = i;
            }
            i = i + 1;
        }
        let candidates = world.entities_with(kinds[best]);
        proof {
            assert forall|entity: Entity| #[trigger] self@.row_ids(world@).contains(
                entity.id(),
            ) implies candidates@.contains(entity) by {
                crate::entity::lemma_entity_is_its_id(Entity::of(entity.id()), entity);
                lemma_rows_carry_requirements(self@, world@, entity);
                assert(world@.has(kinds@[best as int], entity));
            }
        }
        candidates
    }

    /// The rows of the query, ascending.
    pub fn rows<C: RelationshipTarget>(&self, world: &World<C>) -> (rows: Vec<Entity>)
        requires
            world.wf(),
        ensures
            rows@ == self@.rows(world@),
    {
        let candidates = self.candidates(world);
        proof {
            lemma_kept_superset_is_rows(self@, world@, candidates@);
        }
        self.rows_from_candidates(world, &candidates)
    }

    /// The components whose state on a row the query observes: row data first,
    /// then conditions.
    fn observed_kinds(&self) -> (kinds: Vec<ComponentId>)
        ensures
            kinds@ == part_components(self@.parts) + observed_components(self@.filters),
    {
        let mut kinds = self.part_kinds();
        let ghost first = part_components(self.parts@);
        let mut n: usize = 0;
        assert(self.filters@.take(0) =~= Seq::<RowFilter>::empty());
        while n < self.filters.len()
            invariant
                n <= self.filters@.len(),
                kinds@ =~= first + observed_components(self.filters@.take(n as int)),
            decreases self.filters@.len() - n,
        {
            assert(self.filters@.take(n + 1).drop_last() =~= self.filters@.take(n as int));
            if let Some(kind) = self.filters[n].observed_component() {
                kinds.push(kind);
            }
            n = n + 1;
        }
        assert(self.filters@.take(self.filters@.len() as int) =~= self.filters@);
        kinds
    }

    /// The tracked components a row depends on.
    pub fn tracked_inputs<C: RelationshipTarget>(&self) -> (kinds: Vec<ComponentId>)
        ensures
            kinds@ == self@.tracked_inputs::<C>(),
    {
        let all = self.observed_kinds();
        let ghost first = part_components(self.parts@);
        let ghost second = observed_components(self.filters@);
        let mut kinds: Vec<ComponentId> = Vec::new();
        let mut i: usize = 0;
        assert(all@.take(0) =~= Seq::<ComponentId>::empty());
        while i < all.len()
            invariant
                i <= all@.len(),
                kinds@ == tracked_of::<C>(all@.take(i as int)),
            decreases all@.len() - i,
        {
            assert(all@.take(i + 1).drop_last() =~= all@.take(i as int));
            if C::is_tracked(all[i]) {
                kinds.push(all[i]);
            }
            i = i + 1;
        }
        assert(all@.take(all@.len() as int) =~= all@);
        proof {
            lemma_tracked_of_concat::<C>(first, second);
        }
        kinds
    }

    /// The tracked inputs that invalidate a row when they change.
    pub fn deps<C: RelationshipTarget>(&self, world: &World<C>, entity: Entity) -> (deps: Vec<Dep>)
        ensures
            deps@ == self@.deps(world@, entity),
    {
        let kinds = self.tracked_inputs::<C>();
        let mut deps: Vec<Dep> = Vec::new();
        let mut i: usize = 0;
        while i < kinds.len()
            invariant
                i <= kinds@.len(),
                deps@ =~= row_deps(world@, kinds@, entity).take(i as int),
            decreases kinds@.len() - i,
        {
            let dep = match world.revision(kinds[i], entity) {
                Some(revision) => Dep {
                    component: kinds[i],
                    entity: Some(entity),
                    revision,
                    absent: false,
                },
                None => Dep { component: kinds[i], entity: Some(entity), revision: 0, absent: true },
            };
            assert(dep == observation(world@, kinds@[i as int], entity));
            deps.push(dep);
            i = i + 1;
        }
        assert(deps@ =~= row_deps(world@, kinds@, entity));
        deps
    }

    /// The watermarks of every store that could hold a partner row.
    pub fn absence_deps<C: RelationshipTarget>(&self, world: &World<C>) -> (deps: Vec<Dep>)
        ensures
            deps@ == self@.absence_deps(world@),
    {
        let ghost kinds = part_components(self.parts@) + self@.bound_kinds();
        let ghost all = store_deps(world@, kinds);
        let mut deps: Vec<Dep> = Vec::new();
        let mut i: usize = 0;
        while i < self.parts.len()
            invariant
                i <= self.parts@.len(),
                kinds == part_components(self.parts@) + self@.bound_kinds(),
                all == store_deps(world@, kinds),
                deps@ =~= all.take(i as int),
            decreases self.parts@.len() - i,
        {
            let component = self.parts[i].component;
            assert(kinds[i as int] == component);
            deps.push(
                Dep {
                    component,
                    entity: None,
                    revision: world.store_watermark(component),
                    absent: false,
                },
            );
            i = i + 1;
        }
        let bound = self.bound_components();
        let mut n: usize = 0;
        while n < bound.len()
            invariant
                n <= bound@.len(),
                bound@ == self@.bound_kinds(),
                i == self.parts@.len(),
                kinds == part_components(self.parts@) + self@.bound_kinds(),
                all == store_deps(world@, kinds),
                deps@ =~= all.take(i + n),
            decreases bound@.len() - n,
        {
            let component = bound[n];
            assert(kinds[i + n] == component);
            deps.push(
                Dep {
                    component,
                    entity: None,
                    revision: world.store_watermark(component),
                    absent: false,
                },
            );
            n = n + 1;
        }
        assert(all.take(all.len() as int) =~= all);
        deps
    }

    /// The components bound to a sibling query, in order.
    pub fn bound_components(&self) -> (kinds: Vec<ComponentId>)
        ensures
            kinds@ == self@.bound_kinds(),
    {
        let mut kinds: Vec<ComponentId> = Vec::new();
        let mut i: usize = 0;
        assert(self.filters@.take(0) =~= Seq::<RowFilter>::empty());
        while i < self.filters.len()
            invariant
                i <= self.filters@.len(),
                kinds@ == bound_of(self.filters@.take(i as int)),
            decreases self.filters@.len() - i,
        {
            assert(self.filters@.take(i + 1).drop_last() =~= self.filters@.take(i as int));
            match self.filters[i] {
                RowFilter::Bound(kind) => kinds.push(kind),
                _ => {},
            }
            i = i + 1;
        }
        assert(self.filters@.take(self.filters@.len() as int) =~= self.filters@);
        kinds
    }

    /// The inverses whose members the rows are drawn from, in order.
    pub fn member_components(&self) -> (kinds: Vec<ComponentId>)
        ensures
            kinds@ == self@.member_kinds(),
    {
        let mut kinds: Vec<ComponentId> = Vec::new();
        let mut i: usize = 0;
        assert(self.filters@.take(0) =~= Seq::<RowFilter>::empty());
        while i < self.filters.len()
            invariant
                i <= self.filters@.len(),
                kinds@ == members_of(self.filters@.take(i as int)),
            decreases self.filters@.len() - i,
        {
            assert(self.filters@.take(i + 1).drop_last() =~= self.filters@.take(i as int));
            match self.filters[i] {
                RowFilter::Member(kind) => kinds.push(kind),
                _ => {},
            }
            i = i + 1;
        }
        assert(self.filters@.take(self.filters@.len() as int) =~= self.filters@);
        kinds
    }

    /// Whether the query's row data reads `kind`.
    pub fn provides_key(&self, kind: ComponentId) -> (provides: bool)
        ensures
            provides == self@.reads(kind),
    {
        let mut i: usize = 0;
        while i < self.parts.len()
            invariant
                i <= self.parts@.len(),
                forall|j: int|
                    0 <= j < i ==> !((#[trigger] self.parts@[j]).component == kind
                        && self.parts@[j].mode == PartMode::Read),
            decreases self.parts@.len() - i,
        {
            if self.parts[i].component == kind && self.parts[i].mode == PartMode::Read {
                assert(self@.parts[i as int].component == kind);
                return true;
            }
            i = i + 1;
        }
        false
    }

    /// The component rows that the invocation of `entity` touches, or the whole
    /// stores when `entity` is `None`.
    pub fn access_for(&self, entity: Option<Entity>) -> (access: Vec<Access>)
        ensures
            access@ == part_access(self@.parts, entity) + filter_access(self@.filters, entity),
    {
        let mut access: Vec<Access> = Vec::new();
        let ghost first = part_access(self.parts@, entity);
        let mut i: usize = 0;
        while i < self.parts.len()
            invariant
                i <= self.parts@.len(),
                first == part_access(self.parts@, entity),
                access@ =~= first.take(i as int),
            decreases self.parts@.len() - i,
        {
            let kind = if self.parts[i].mode == PartMode::Write {
                AccessKind::Write
            } else {
                AccessKind::Read
            };
            access.push(Access { kind, component: self.parts[i].component, entity });
            i = i + 1;
        }
        assert(first.take(self.parts@.len() as int) =~= first);
        let mut n: usize = 0;
        assert(self.filters@.take(0) =~= Seq::<RowFilter>::empty());
        while n < self.filters.len()
            invariant
                n <= self.filters@.len(),
                access@ =~= first + filter_access(self.filters@.take(n as int), entity),
            decreases self.filters@.len() - n,
        {
            assert(self.filters@.take(n + 1).drop_last() =~= self.filters@.take(n as int));
            match self.filters[n] {
                RowFilter::With(component) => access.push(
                    Access { kind: AccessKind::Read, component, entity },
                ),
                RowFilter::Without(component) => access.push(
                    Access { kind: AccessKind::Read, component, entity },
                ),
                RowFilter::Bound(component) => access.push(
                    Access { kind: AccessKind::Read, component, entity },
                ),
                RowFilter::Member(_) => {},
                RowFilter::Anchor(component) => access.push(
                    Access { kind: AccessKind::Read, component, entity },
                ),
                RowFilter::Maybe(component) => access.push(
                    Access { kind: AccessKind::Read, component, entity },
                ),
            }
            n = n + 1;
        }
        assert(self.filters@.take(self.filters@.len() as int) =~= self.filters@);
        access
    }

    /// The components of the row data, in order.
    pub fn part_kinds(&self) -> (kinds: Vec<ComponentId>)
        ensures
            kinds@ == part_components(self@.parts),
    {
        let mut kinds: Vec<ComponentId> = Vec::new();
        let mut i: usize = 0;
        while i < self.parts.len()
            invariant
                i <= self.parts@.len(),
                kinds@ =~= part_components(self.parts@).take(i as int),
            decreases self.parts@.len() - i,
        {
            kinds.push(self.parts[i].component);
            i = i + 1;
        }
        assert(kinds@ =~= part_components(self@.parts));
        kinds
    }
}

/// Every entity id allocated so far.
fn all_entities<C: RelationshipTarget>(world: &World<C>) -> (entities: Vec<Entity>)
    ensures
        ascending(ids(entities@)),
        forall|entity: Entity| #[trigger]
            entities@.contains(entity) <==> entity.id() < world@.next_entity,
        forall|i: int|
            0 <= i < entities@.len() ==> (#[trigger] entities@[i]).id() < world@.next_entity,
{
    let end = world.next_entity_raw();
    let mut entities: Vec<Entity> = Vec::new();
    let mut id: u64 = 0;
    while id < end
        invariant
            id <= end,
            entities@.len() == id,
            forall|i: int| 0 <= i < id ==> (#[trigger] entities@[i]).id() == i,
        decreases end - id,
    {
        entities.push(Entity::from_raw(id));
        id = id + 1;
    }
    proof {
        assert forall|entity: Entity| #[trigger] entities@.contains(entity) <==> entity.id()
            < world@.next_entity by {
            if entity.id() < world@.next_entity {
                let i = entity.id() as int;
                crate::entity::lemma_entity_is_its_id(entities@[i], entity);
            }
        }
    }
    entities
}

proof fn lemma_tracked_of_concat<C: RelationshipTarget>(
    a: Seq<ComponentId>,
    b: Seq<ComponentId>,
)
    ensures
        tracked_of::<C>(a + b) == tracked_of::<C>(a) + tracked_of::<C>(b),
    decreases b.len(),
{
    if b.len() == 0 {
        assert(a + b =~= a);
        assert(tracked_of::<C>(a) + tracked_of::<C>(b) =~= tracked_of::<C>(a));
    } else {
        assert((a + b).drop_last() =~= a + b.drop_last());
        lemma_tracked_of_concat::<C>(a, b.drop_last());
        assert(tracked_of::<C>(a + b) =~= tracked_of::<C>(a) + tracked_of::<C>(b));
    }
}

} // verus!
