//! Scheduler-visible access to component rows.

use crate::component::ComponentId;
use crate::entity::Entity;
use crate::model::Cell;
use vstd::prelude::*;

verus! {

/// Shared or exclusive access kind for one component row.
#[derive(Debug, Clone, Copy, PartialEq, Eq, Hash, Structural)]
pub enum AccessKind {
    Read,
    Write,
}

/// Scheduler-visible access to one component row, or to a whole component store
/// when `entity` is `None`.
#[derive(Debug, Clone, Copy)]
pub struct Access {
    pub kind: AccessKind,
    pub component: ComponentId,
    pub entity: Option<Entity>,
}

impl Access {
    /// Whether the access reaches the row of `entity`.
    pub open spec fn reaches(self, entity: Entity) -> bool {
        match self.entity {
            Some(own) => own == entity,
            None => true,
        }
    }

    /// Two accesses conflict when they can touch the same row of one component
    /// and at least one of them writes.
    pub open spec fn clashes(self, other: Access) -> bool {
        &&& self.component == other.component
        &&& self.kind == AccessKind::Write || other.kind == AccessKind::Write
        &&& exists|entity: Entity| #[trigger] self.reaches(entity) && other.reaches(entity)
    }

    /// Shared access to one row.
    pub fn read(component: ComponentId, entity: Entity) -> (access: Access)
        ensures
            access == (Access { kind: AccessKind::Read, component, entity: Some(entity) }),
    {
        Access { kind: AccessKind::Read, component, entity: Some(entity) }
    }

    /// Exclusive access to one row.
    pub fn write(component: ComponentId, entity: Entity) -> (access: Access)
        ensures
            access == (Access { kind: AccessKind::Write, component, entity: Some(entity) }),
    {
        Access { kind: AccessKind::Write, component, entity: Some(entity) }
    }

    /// Shared access to every row, used by ambient views.
    pub fn read_all(component: ComponentId) -> (access: Access)
        ensures
            access == (Access { kind: AccessKind::Read, component, entity: None::<Entity> }),
    {
        Access { kind: AccessKind::Read, component, entity: None }
    }

    /// Exclusive access to every row.
    pub fn write_all(component: ComponentId) -> (access: Access)
        ensures
            access == (Access { kind: AccessKind::Write, component, entity: None::<Entity> }),
    {
        Access { kind: AccessKind::Write, component, entity: None }
    }

    /// Whether two accesses must not run at the same time.
    pub fn conflicts(self, other: Access) -> (conflict: bool)
        ensures
            conflict == self.clashes(other),
    {
        let overlap = match (self.entity, other.entity) {
            (Some(a), Some(b)) => a.same(b),
            _ => true,
        };
        proof {
            match (self.entity, other.entity) {
                (Some(a), Some(b)) => {
                    if overlap {
                        crate::entity::lemma_entity_is_its_id(a, b);
                        assert(self.reaches(a) && other.reaches(a));
                    }
                },
                (Some(a), None) => {
                    assert(self.reaches(a) && other.reaches(a));
                },
                (None, Some(b)) => {
                    assert(self.reaches(b) && other.reaches(b));
                },
                (None, None) => {
                    let any: Entity = Entity::of(0);
                    assert(self.reaches(any) && other.reaches(any));
                },
            }
        }
        self.component == other.component && (self.kind == AccessKind::Write || other.kind
            == AccessKind::Write) && overlap
    }
}

/// Whether any access of one list conflicts with any of another.
pub open spec fn lists_clash(a: Seq<Access>, b: Seq<Access>) -> bool {
    exists|i: int, j: int|
        0 <= i < a.len() && 0 <= j < b.len() && (#[trigger] a[i]).clashes(#[trigger] b[j])
}

/// Whether any access of one list conflicts with any of another.
pub fn access_lists_conflict(a: &Vec<Access>, b: &Vec<Access>) -> (conflict: bool)
    ensures
        conflict == lists_clash(a@, b@),
{
    let mut i: usize = 0;
    while i < a.len()
        invariant
            i <= a@.len(),
            forall|m: int, n: int|
                0 <= m < i && 0 <= n < b@.len() ==> !(#[trigger] a@[m]).clashes(#[trigger] b@[n]),
        decreases a@.len() - i,
    {
        let mut j: usize = 0;
        while j < b.len()
            invariant
                i < a@.len(),
                j <= b@.len(),
                forall|n: int| 0 <= n < j ==> !a@[i as int].clashes(#[trigger] b@[n]),
            decreases b@.len() - j,
        {
            if a[i].conflicts(b[j]) {
                assert(a@[i as int].clashes(b@[j as int]));
                return true;
            }
            j = j + 1;
        }
        i = i + 1;
    }
    false
}

/// Copies an access list.
pub fn copy_access(access: &Vec<Access>) -> (copy: Vec<Access>)
    ensures
        copy@ == access@,
{
    let mut copy: Vec<Access> = Vec::new();
    let mut i: usize = 0;
    while i < access.len()
        invariant
            i <= access@.len(),
            copy@ =~= access@.take(i as int),
        decreases access@.len() - i,
    {
        copy.push(access[i]);
        i = i + 1;
    }
    assert(access@.take(access@.len() as int) =~= access@);
    copy
}

/// The rows that a list of accesses writes, in order.
pub open spec fn rows_written(access: Seq<Access>) -> Seq<Cell>
    decreases access.len(),
{
    if access.len() == 0 {
        Seq::empty()
    } else {
        let rest = rows_written(access.drop_last());
        let last = access.last();
        match last.entity {
            Some(entity) => if last.kind == AccessKind::Write {
                rest.push((last.component, entity))
            } else {
                rest
            },
            None => rest,
        }
    }
}

/// Extracts the rows an invocation has exclusive write access to.
pub fn written_rows(access: &Vec<Access>) -> (rows: Vec<Cell>)
    ensures
        rows@ == rows_written(access@),
{
    let mut rows: Vec<Cell> = Vec::new();
    let mut i: usize = 0;
    assert(access@.take(0) =~= Seq::<Access>::empty());
    while i < access.len()
        invariant
            i <= access@.len(),
            rows@ == rows_written(access@.take(i as int)),
        decreases access@.len() - i,
    {
        assert(access@.take(i + 1).drop_last() =~= access@.take(i as int));
        if let Some(entity) = access[i].entity {
            if access[i].kind == AccessKind::Write {
                rows.push((access[i].component, entity));
            }
        }
        i = i + 1;
    }
    assert(access@.take(access@.len() as int) =~= access@);
    rows
}

/// Conflicts are symmetric.
pub proof fn lemma_clash_is_symmetric(a: Access, b: Access)
    ensures
        a.clashes(b) == b.clashes(a),
{
    if a.clashes(b) {
        let entity = choose|entity: Entity| #[trigger] a.reaches(entity) && b.reaches(entity);
        assert(b.reaches(entity) && a.reaches(entity));
    }
    if b.clashes(a) {
        let entity = choose|entity: Entity| #[trigger] b.reaches(entity) && a.reaches(entity);
        assert(a.reaches(entity) && b.reaches(entity));
    }
}

/// Two shared accesses never conflict.
pub proof fn lemma_readers_never_clash(a: Access, b: Access)
    requires
        a.kind == AccessKind::Read,
        b.kind == AccessKind::Read,
    ensures
        !a.clashes(b),
{
}

/// Accesses to different rows, or to different components, never conflict.
pub proof fn lemma_disjoint_rows_never_clash(a: Access, b: Access)
    requires
        a.component != b.component || (a.entity is Some && b.entity is Some && a.entity != b.entity),
    ensures
        !a.clashes(b),
{
}

/// Whole-store exclusive access conflicts with every access to the component.
pub proof fn lemma_whole_store_write_clashes(component: ComponentId, b: Access)
    requires
        b.component == component,
    ensures
        (Access { kind: AccessKind::Write, component, entity: None::<Entity> }).clashes(b),
{
    let a = Access { kind: AccessKind::Write, component, entity: None::<Entity> };
    let entity: Entity = match b.entity {
        Some(entity) => entity,
        None => Entity::of(0),
    };
    assert(a.reaches(entity) && b.reaches(entity));
}

} // verus!
