//! The rows that a database query selects.

use crate::component::{Component, ComponentId};
use crate::entity::{Entity, Untyped};
use crate::model::{ascending, sorted_keys};
use crate::pipeline::tables::{Tables, TablesModel};
use crate::query::Dep;
use crate::world::ids;
use vstd::prelude::*;

verus! {

/// Which components a row must have. A joined query looks only at entities that
/// the database handed out.
pub struct RowShape {
    pub kinds: Vec<ComponentId>,
    pub joined: bool,
}

/// What a row shape is.
#[verifier::ext_equal]
pub struct ShapeModel {
    pub kinds: Seq<ComponentId>,
    pub joined: bool,
}

impl View for RowShape {
    type V = ShapeModel;

    open spec fn view(&self) -> ShapeModel {
        ShapeModel { kinds: self.kinds@, joined: self.joined }
    }
}

/// Row shapes by what they are.
pub open spec fn shapes_view(shapes: Seq<RowShape>) -> Seq<ShapeModel> {
    shapes.map_values(|shape: RowShape| shape@)
}

/// A row's component is gone: an earlier invocation of the same run took it.
#[derive(Clone, Copy, Debug, PartialEq, Eq, Structural)]
pub struct GoneComponent {
    pub kind: ComponentId,
    pub entity: u64,
}

impl ShapeModel {
    /// Whether a query names a component at all.
    pub open spec fn wf(self) -> bool {
        self.kinds.len() > 0
    }

    /// Whether an entity has all components.
    pub open spec fn has_all<C: Component>(self, tables: TablesModel<C>, entity: Entity) -> bool {
        forall|i: int| 0 <= i < self.kinds.len() ==> tables.has(#[trigger] self.kinds[i], entity)
    }

    /// Whether an entity is a row.
    pub open spec fn admits<C: Component>(self, tables: TablesModel<C>, id: u64) -> bool {
        (self.joined ==> id < tables.next_entity) && self.has_all(tables, Entity::of(id))
    }

    /// The rows, ascending.
    pub open spec fn rows<C: Component>(self, tables: TablesModel<C>) -> Seq<u64> {
        sorted_keys(Set::new(|id: u64| self.admits(tables, id)))
    }

    /// What an invocation observes of the first `count` components of a row: the
    /// revisions of the tracked ones.
    pub open spec fn deps_of<C: Component>(
        self,
        tables: TablesModel<C>,
        entity: Entity,
        count: nat,
    ) -> Result<Seq<Dep>, GoneComponent>
        decreases count,
    {
        if count == 0 {
            Ok(Seq::empty())
        } else {
            match self.deps_of(tables, entity, (count - 1) as nat) {
                Err(gone) => Err(gone),
                Ok(deps) => if !C::tracks(self.kinds[count - 1]) {
                    Ok(deps)
                } else {
                    match tables.entry(self.kinds[count - 1], entity) {
                        Some(entry) => Ok(
                            deps.push(
                                Dep {
                                    component: self.kinds[count - 1],
                                    entity: Some(entity),
                                    revision: entry.revision,
                                    absent: false,
                                },
                            ),
                        ),
                        None => Err(
                            GoneComponent { kind: self.kinds[count - 1], entity: entity.id() },
                        ),
                    }
                },
            }
        }
    }

    /// What an invocation observes of a row.
    pub open spec fn deps<C: Component>(self, tables: TablesModel<C>, entity: Entity) -> Result<
        Seq<Dep>,
        GoneComponent,
    > {
        self.deps_of(tables, entity, self.kinds.len())
    }

    /// The first component that a row lost.
    pub open spec fn gone<C: Component>(
        self,
        tables: TablesModel<C>,
        entity: Entity,
        from: int,
    ) -> Option<GoneComponent>
        decreases self.kinds.len() - from,
    {
        if from < 0 || from >= self.kinds.len() {
            None
        } else if !tables.has(self.kinds[from], entity) {
            Some(GoneComponent { kind: self.kinds[from], entity: entity.id() })
        } else {
            self.gone(tables, entity, from + 1)
        }
    }
}

/// The rows that a system reads beside its own, without running again when they
/// change.
pub struct RowView<T> {
    pub rows: Vec<T>,
}

impl<T> RowView<T> {
    /// Whether there are no rows.
    pub fn is_empty(&self) -> (empty: bool)
        ensures
            empty == (self.rows@.len() == 0),
    {
        self.rows.len() == 0
    }

    /// How many rows there are.
    pub fn len(&self) -> (len: usize)
        ensures
            len == self.rows@.len(),
    {
        self.rows.len()
    }
}

impl<T> RowView<(Entity, T)> {
    /// What the first row of `entity` holds.
    pub fn get(&self, entity: Entity) -> (value: Option<&T>)
        ensures
            match value {
                Some(value) => exists|i: int|
                    0 <= i < self.rows@.len() && (#[trigger] self.rows@[i]).0 == entity
                        && self.rows@[i].1 == *value && forall|j: int|
                        0 <= j < i ==> (#[trigger] self.rows@[j]).0 != entity,
                None => forall|j: int|
                    0 <= j < self.rows@.len() ==> (#[trigger] self.rows@[j]).0 != entity,
            },
    {
        let mut i: usize = 0;
        while i < self.rows.len()
            invariant
                i <= self.rows@.len(),
                forall|j: int| 0 <= j < i ==> (#[trigger] self.rows@[j]).0 != entity,
            decreases self.rows@.len() - i,
        {
            if self.rows[i].0 == entity {
                return Some(&self.rows[i].1);
            }
            i = i + 1;
        }
        None
    }
}

impl RowShape {
    /// Whether an entity has all components; else the first that it lost.
    pub fn first_gone<C: Component>(&self, tables: &Tables<C>, entity: Entity) -> (gone: Option<
        GoneComponent,
    >)
        ensures
            gone == self@.gone(tables@, entity, 0),
            gone is None <==> self@.has_all(tables@, entity),
    {
        let mut i: usize = 0;
        while i < self.kinds.len()
            invariant
                i <= self.kinds@.len(),
                self@.gone(tables@, entity, 0) == self@.gone(tables@, entity, i as int),
                forall|j: int|
                    0 <= j < i ==> tables@.has(#[trigger] self@.kinds[j], entity),
            decreases self.kinds@.len() - i,
        {
            if !tables.has(self.kinds[i], entity) {
                assert(!tables@.has(self@.kinds[i as int], entity));
                return Some(GoneComponent { kind: self.kinds[i], entity: entity.raw() });
            }
            i = i + 1;
        }
        None
    }

    /// The rows, ascending.
    pub fn rows<C: Component>(&self, tables: &Tables<C>) -> (rows: Vec<Entity>)
        requires
            self@.wf(),
        ensures
            ids(rows@) == self@.rows(tables@),
    {
        let candidates = tables.entities_with(self.kinds[0]);
        let mut rows: Vec<Entity> = Vec::new();
        let mut i: usize = 0;
        let ghost wanted = Set::new(|id: u64| self@.admits(tables@, id));
        proof {
            crate::model::lemma_sorted_keys_list(tables@.table(self.kinds@[0]).dom());
        }
        while i < candidates.len()
            invariant
                i <= candidates@.len(),
                ascending(candidates@),
                self@.wf(),
                wanted == Set::new(|id: u64| self@.admits(tables@, id)),
                candidates@ == tables@.entities_with(self@.kinds[0]),
                ascending(ids(rows@)),
                forall|j: int|
                    0 <= j < rows@.len() ==> wanted.contains((#[trigger] rows@[j]).id()),
                forall|j: int|
                    0 <= j < rows@.len() ==> exists|k: int|
                        0 <= k < i && candidates@[k] == (#[trigger] rows@[j]).id(),
                forall|j: int|
                    0 <= j < i && wanted.contains(#[trigger] candidates@[j])
                        ==> ids(rows@).contains(candidates@[j]),
            decreases candidates@.len() - i,
        {
            let id: u64 = candidates[i];
            let entity: Entity = Entity::from_raw(id);
            let ghost before = rows@;
            if (!self.joined || id < tables.next_entity()) && self.first_gone(
                tables,
                entity,
            ).is_none() {
                rows.push(entity);
                proof {
                    let listed = ids(rows@);
                    assert(listed =~= ids(before).push(id));
                    assert forall|a: int, b: int| 0 <= a < b < listed.len() implies listed[a]
                        < listed[b] by {
                        if b == before.len() {
                            let k = choose|k: int|
                                0 <= k < i && candidates@[k] == (#[trigger] before[a]).id();
                            assert(candidates@[k] < candidates@[i as int]);
                        } else {
                            assert(ids(before)[a] < ids(before)[b]);
                        }
                    }
                    assert(wanted.contains(id));
                }
            }
            proof {
                assert forall|j: int| 0 <= j < rows@.len() implies exists|k: int|
                    0 <= k < i + 1 && candidates@[k] == (#[trigger] rows@[j]).id() by {
                    if j < before.len() {
                        assert(rows@[j] == before[j]);
                        let k = choose|k: int|
                            0 <= k < i && candidates@[k] == (#[trigger] before[j]).id();
                        assert(candidates@[k] == rows@[j].id());
                    } else {
                        assert(candidates@[i as int] == rows@[j].id());
                    }
                }
                assert forall|j: int| 0 <= j < i + 1 && wanted.contains(
                    #[trigger] candidates@[j],
                ) implies ids(rows@).contains(candidates@[j]) by {
                    if j < i {
                        let earlier = ids(before);
                        let k = choose|k: int|
                            0 <= k < earlier.len() && earlier[k] == candidates@[j];
                        assert(ids(rows@)[k] == candidates@[j]);
                    } else {
                        assert(self@.admits(tables@, id));
                        assert(ids(rows@)[rows@.len() - 1] == id);
                    }
                }
            }
            i = i + 1;
        }
        proof {
            let listed = ids(rows@);
            assert forall|id: u64| listed.to_set().contains(id) <==> wanted.contains(id) by {
                if listed.contains(id) {
                    let k = choose|k: int| 0 <= k < listed.len() && listed[k] == id;
                    assert(wanted.contains(rows@[k].id()));
                }
                if wanted.contains(id) {
                    assert(tables@.has(self@.kinds[0], Entity::<Untyped>::of(id)));
                    assert(candidates@.to_set().contains(id));
                    let k = choose|k: int| 0 <= k < candidates@.len() && candidates@[k] == id;
                    assert(wanted.contains(candidates@[k]));
                }
            }
            assert(listed.to_set() =~= wanted);
            crate::model::lemma_sorted_keys(listed, wanted);
        }
        rows
    }

    /// What an invocation observes of a row.
    pub fn deps<C: Component>(&self, tables: &Tables<C>, entity: Entity) -> (deps: Result<
        Vec<Dep>,
        GoneComponent,
    >)
        ensures
            match deps {
                Ok(deps) => self@.deps(tables@, entity) == Ok::<Seq<Dep>, GoneComponent>(deps@),
                Err(gone) => self@.deps(tables@, entity) == Err::<Seq<Dep>, GoneComponent>(gone),
            },
    {
        let mut deps: Vec<Dep> = Vec::new();
        let mut i: usize = 0;
        while i < self.kinds.len()
            invariant
                i <= self.kinds@.len(),
                self@.deps_of(tables@, entity, i as nat) == Ok::<Seq<Dep>, GoneComponent>(deps@),
            decreases self.kinds@.len() - i,
        {
            let kind: ComponentId = self.kinds[i];
            if C::is_tracked(kind) {
                match tables.revision(kind, entity) {
                    Some(revision) => {
                        deps.push(
                Dep { component: kind, entity: Some(entity), revision, absent: false },
            );
                    },
                    None => {
                        proof {
                            lemma_gone_stays(self@, tables@, entity, (i + 1) as nat);
                        }
                        return Err(GoneComponent { kind, entity: entity.raw() });
                    },
                }
            }
            i = i + 1;
        }
        Ok(deps)
    }
}

proof fn lemma_gone_stays<C: Component>(
    shape: ShapeModel,
    tables: TablesModel<C>,
    entity: Entity,
    count: nat,
)
    requires
        count <= shape.kinds.len(),
        shape.deps_of(tables, entity, count) is Err,
    ensures
        shape.deps(tables, entity) == shape.deps_of(tables, entity, count),
    decreases shape.kinds.len() - count,
{
    if count < shape.kinds.len() {
        lemma_gone_stays(shape, tables, entity, count + 1);
    }
}

} // verus!
