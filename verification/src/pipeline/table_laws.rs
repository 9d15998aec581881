//! What a database stores, replaces, selects and remembers.

use crate::component::{ComparableComponent, Component, ComponentId, ComponentType};
use crate::entity::{Entity, Untyped};
use crate::filter::Always;
use crate::invocation::{Invocation, SystemId};
use crate::model::{ascending, next, Entry, Origin};
use crate::pipeline::commands::OpModel;
use crate::pipeline::db::{completion_owner, passing};
use crate::pipeline::filter::{BindingMap, FilterExpr};
use crate::pipeline::odometer::{combination, in_range, lemma_combination_of_number, number};
use crate::pipeline::rows::ShapeModel;
use crate::pipeline::run::{combinations, keys_at, lengths_of, observed, unseen, DataModel};
use crate::pipeline::tables::{lemma_swept, SweepModel, TablesModel};
use crate::query::{And, Dep, Gte, Not, Or, With, Without};
use crate::seq_laws::{lemma_joined, lemma_last, lemma_pushed};
use vstd::prelude::*;

verus! {

/// What was inserted is read back, as its caller or its invocation put it, and no
/// other component moves. Its revision is the newest, unless it repeats the
/// fingerprint that was stored or is not tracked.
pub proof fn lemma_insert_is_read_back<C: Component>(
    tables: TablesModel<C>,
    entity: Entity,
    value: C::Model,
    origin: Origin,
    owner: Option<Invocation>,
    kind: ComponentId,
    other: Entity,
)
    ensures
        ({
            let after = tables.put(entity, value, origin, owner);
            let old = tables.entry(C::kind(value), entity);
            let kept = old matches Some(old) && old.fingerprint is Some && old.fingerprint
                == C::stamp(value);
            &&& after.next_entity == tables.next_entity
            &&& if kind == C::kind(value) && other.id() == entity.id() {
                after.entry(kind, other) matches Some(entry) && {
                    &&& entry.value == value
                    &&& entry.fingerprint == C::stamp(value)
                    &&& entry.origin == origin
                    &&& entry.owner == owner
                    &&& C::tracks(kind) && !kept ==> entry.revision == after.revision
                    &&& C::tracks(kind) && !kept && tables.revision < u64::MAX ==> entry.revision
                        > tables.revision
                    &&& C::tracks(kind) && kept ==> entry.revision == old->0.revision
                }
            } else {
                after.entry(kind, other) == tables.entry(kind, other)
            }
            &&& !C::tracks(C::kind(value)) || kept ==> after.revision == tables.revision
        }),
{
}

/// Of several components that are inserted on one entity, each is read back, unless
/// a later one is of the same type; nothing else moves.
pub proof fn lemma_inserts_are_read_back<C: Component>(
    tables: TablesModel<C>,
    entity: Entity,
    values: Seq<C::Model>,
    origin: Origin,
    owner: Option<Invocation>,
    kind: ComponentId,
    other: Entity,
)
    ensures
        ({
            let after = tables.put_all(entity, values, origin, owner);
            &&& after.next_entity == tables.next_entity
            &&& forall|i: int|
                0 <= i < values.len() && (forall|j: int|
                    i < j < values.len() ==> C::kind(#[trigger] values[j]) != C::kind(values[i]))
                    ==> (after.entry(C::kind(#[trigger] values[i]), entity) matches Some(entry)
                    && entry.value == values[i] && entry.origin == origin && entry.owner == owner)
            &&& other.id() != entity.id() || (forall|i: int|
                0 <= i < values.len() ==> C::kind(#[trigger] values[i]) != kind) ==> after.entry(
                kind,
                other,
            ) == tables.entry(kind, other)
        }),
    decreases values.len(),
{
    if values.len() > 0 {
        let rest = values.drop_last();
        let last = values.last();
        let before = tables.put_all(entity, rest, origin, owner);
        let after = tables.put_all(entity, values, origin, owner);
        assert(values[values.len() - 1] == last);
        lemma_inserts_are_read_back(tables, entity, rest, origin, owner, kind, other);
        if other.id() != entity.id() || (forall|i: int|
            0 <= i < values.len() ==> C::kind(#[trigger] values[i]) != kind) {
            assert forall|i: int| 0 <= i < rest.len() && other.id() == entity.id() implies C::kind(
                #[trigger] rest[i],
            ) != kind by {
                assert(rest[i] == values[i]);
            }
        }
        assert forall|i: int|
            0 <= i < values.len() && (forall|j: int|
                i < j < values.len() ==> C::kind(#[trigger] values[j]) != C::kind(
                    values[i],
                )) implies (after.entry(C::kind(#[trigger] values[i]), entity) matches Some(entry)
            && entry.value == values[i] && entry.origin == origin && entry.owner == owner) by {
            if i < rest.len() {
                assert(rest[i] == values[i]);
                assert(C::kind(values[values.len() - 1]) != C::kind(values[i]));
                assert forall|j: int| i < j < rest.len() implies C::kind(#[trigger] rest[j])
                    != C::kind(rest[i]) by {
                    assert(rest[j] == values[j]);
                }
            }
        }
    }
}

/// A removed component is gone, and no other one moves. The removal of a tracked one
/// makes a new revision.
pub proof fn lemma_removal_is_local<C: Component>(
    tables: TablesModel<C>,
    kind: ComponentId,
    entity: Entity,
    other_kind: ComponentId,
    other: Entity,
)
    ensures
        ({
            let after = tables.removed(kind, entity);
            &&& after.next_entity == tables.next_entity
            &&& after.entry(other_kind, other) == if other_kind == kind && other.id()
                == entity.id() {
                None
            } else {
                tables.entry(other_kind, other)
            }
            &&& after.revision == if C::tracks(kind) && tables.entry(kind, entity) is Some {
                next(tables.revision)
            } else {
                tables.revision
            }
        }),
{
}

/// Whether an operation writes `kind` on `entity`; what is spawned is new.
pub open spec fn op_writes<C: Component>(
    op: OpModel<C>,
    next_entity: u64,
    kind: ComponentId,
    entity: Entity,
) -> bool {
    match op {
        OpModel::Insert(target, value) => target.id() == entity.id() && C::kind(value) == kind,
        OpModel::Spawn(values) => entity.id() >= next_entity && exists|i: int|
            0 <= i < values.len() && C::kind(#[trigger] values[i]) == kind,
    }
}

/// Whether one of `ops` writes `kind` on `entity`.
pub open spec fn some_writes<C: Component>(
    ops: Seq<OpModel<C>>,
    next_entity: u64,
    kind: ComponentId,
    entity: Entity,
) -> bool {
    exists|i: int|
        0 <= i < ops.len() && #[trigger] op_writes(ops[i], next_entity, kind, entity)
}

/// Whether operation `at` inserts `value` on `entity`, which was handed out before,
/// and no later one writes that component.
pub open spec fn inserts_last<C: Component>(
    ops: Seq<OpModel<C>>,
    next_entity: u64,
    at: int,
    entity: Entity,
    value: C::Model,
) -> bool {
    &&& 0 <= at < ops.len()
    &&& ops[at] == OpModel::<C>::Insert(entity, value)
    &&& entity.id() < next_entity
    &&& forall|j: int|
        at < j < ops.len() ==> !#[trigger] op_writes(ops[j], next_entity, C::kind(value), entity)
}

/// One operation of an invocation writes what it says for that invocation: an insert
/// on its entity, a spawn on the next entity, which is then handed out. Everything
/// else stays.
pub proof fn lemma_operation_writes<C: Component>(
    tables: TablesModel<C>,
    op: OpModel<C>,
    owner: Invocation,
    kind: ComponentId,
    entity: Entity,
)
    ensures
        ({
            let after = tables.applied(op, owner);
            &&& !op_writes(op, tables.next_entity, kind, entity) ==> after.entry(kind, entity)
                == tables.entry(kind, entity)
            &&& match op {
                OpModel::Insert(target, value) => {
                    &&& after.next_entity == tables.next_entity
                    &&& after.entry(C::kind(value), target) matches Some(entry) && entry.value
                        == value && entry.origin == Origin::Derived && entry.owner == Some(owner)
                },
                OpModel::Spawn(values) => {
                    let target = Entity::<Untyped>::of(tables.next_entity);
                    &&& after.next_entity == next(tables.next_entity)
                    &&& forall|i: int|
                        0 <= i < values.len() && (forall|j: int|
                            i < j < values.len() ==> C::kind(#[trigger] values[j]) != C::kind(
                                values[i],
                            )) ==> (after.entry(C::kind(#[trigger] values[i]), target) matches Some(
                            entry,
                        ) && entry.value == values[i] && entry.origin == Origin::Derived
                            && entry.owner == Some(owner))
                    &&& entity.id() != tables.next_entity ==> after.entry(kind, entity)
                        == tables.entry(kind, entity)
                },
            }
        }),
{
    match op {
        OpModel::Insert(target, value) => {},
        OpModel::Spawn(values) => {
            let target = Entity::<Untyped>::of(tables.next_entity);
            lemma_inserts_are_read_back(
                tables.spawned(),
                target,
                values,
                Origin::Derived,
                Some(owner),
                kind,
                entity,
            );
            if !op_writes(op, tables.next_entity, kind, entity) {
                if entity.id() == target.id() {
                    assert forall|i: int| 0 <= i < values.len() implies C::kind(
                        #[trigger] values[i],
                    ) != kind by {}
                }
            }
        },
    }
}

/// Operations one list behind the other are applied one behind the other.
pub proof fn lemma_operations_in_turn<C: Component>(
    tables: TablesModel<C>,
    first: Seq<OpModel<C>>,
    second: Seq<OpModel<C>>,
    owner: Invocation,
)
    ensures
        tables.applied_all(first + second, owner) == tables.applied_all(first, owner).applied_all(
            second,
            owner,
        ),
        second.len() == 1 ==> tables.applied_all(second, owner) == tables.applied(
            second[0],
            owner,
        ),
    decreases second.len(),
{
    if second.len() == 0 {
        assert(first + second =~= first);
    } else {
        assert((first + second).drop_last() =~= first + second.drop_last());
        lemma_operations_in_turn(tables, first, second.drop_last(), owner);
        if second.len() == 1 {
            assert(second.drop_last() =~= Seq::<OpModel<C>>::empty());
            assert(tables.applied_all(second.drop_last(), owner) == tables);
        }
    }
}

proof fn lemma_unwritten_stays<C: Component>(
    tables: TablesModel<C>,
    ops: Seq<OpModel<C>>,
    owner: Invocation,
    kind: ComponentId,
    entity: Entity,
)
    ensures
        tables.applied_all(ops, owner).next_entity >= tables.next_entity,
        !some_writes(ops, tables.next_entity, kind, entity) ==> tables.applied_all(
            ops,
            owner,
        ).entry(kind, entity) == tables.entry(kind, entity),
    decreases ops.len(),
{
    if ops.len() > 0 {
        let rest = ops.drop_last();
        let before = tables.applied_all(rest, owner);
        lemma_unwritten_stays(tables, rest, owner, kind, entity);
        lemma_operation_writes(before, ops.last(), owner, kind, entity);
        if !some_writes(ops, tables.next_entity, kind, entity) {
            assert forall|i: int| 0 <= i < rest.len() implies !#[trigger] op_writes(
                rest[i],
                tables.next_entity,
                kind,
                entity,
            ) by {
                assert(rest[i] == ops[i]);
                assert(!op_writes(ops[i], tables.next_entity, kind, entity));
            }
            assert(!op_writes(ops[ops.len() - 1], tables.next_entity, kind, entity));
        }
    }
}

proof fn lemma_last_write_stays<C: Component>(
    tables: TablesModel<C>,
    ops: Seq<OpModel<C>>,
    owner: Invocation,
    at: int,
    target: Entity,
    value: C::Model,
)
    requires
        0 <= at < ops.len(),
        ops[at] == OpModel::<C>::Insert(target, value),
        target.id() < tables.next_entity,
        forall|j: int|
            at < j < ops.len() ==> !#[trigger] op_writes(
                ops[j],
                tables.next_entity,
                C::kind(value),
                target,
            ),
    ensures
        tables.applied_all(ops, owner).entry(C::kind(value), target) matches Some(entry)
            && entry.value == value && entry.origin == Origin::Derived && entry.owner == Some(
            owner,
        ),
    decreases ops.len(),
{
    let rest = ops.drop_last();
    let before = tables.applied_all(rest, owner);
    lemma_operation_writes(before, ops.last(), owner, C::kind(value), target);
    lemma_unwritten_stays(tables, rest, owner, C::kind(value), target);
    if at < rest.len() {
        assert forall|j: int| at < j < rest.len() implies !#[trigger] op_writes(
            rest[j],
            tables.next_entity,
            C::kind(value),
            target,
        ) by {
            assert(!op_writes(ops[j], tables.next_entity, C::kind(value), target));
        }
        assert(rest[at] == ops[at]);
        lemma_last_write_stays(tables, rest, owner, at, target, value);
        assert(!op_writes(ops[ops.len() - 1], tables.next_entity, C::kind(value), target));
    }
}

/// Whether an entry was derived by `owner`.
pub open spec fn derived_by<C: Component>(entry: Option<Entry<C>>, owner: Invocation) -> bool {
    entry matches Some(entry) && entry.origin == Origin::Derived && entry.owner == Some(owner)
}

/// Sweeping out what an invocation derived takes exactly that.
pub proof fn lemma_owned_sweep_is_exact<C: Component>(
    tables: TablesModel<C>,
    owner: Invocation,
    kind: ComponentId,
    entity: Entity,
)
    ensures
        ({
            let after = tables.swept(SweepModel::Owned(owner));
            &&& after.next_entity == tables.next_entity
            &&& after.entry(kind, entity) == if derived_by(tables.entry(kind, entity), owner) {
                None
            } else {
                tables.entry(kind, entity)
            }
        }),
{
    lemma_swept(tables, SweepModel::Owned(owner));
    let after = tables.swept(SweepModel::Owned(owner));
    assert(after.table(kind) == tables.table(kind).remove_keys(
        tables.swept_keys(kind, SweepModel::Owned(owner)),
    ));
}

/// Sweeping out what was derived from entities takes exactly the derived components
/// whose invocation is keyed by one of them.
pub proof fn lemma_touched_sweep_is_exact<C: Component>(
    tables: TablesModel<C>,
    entities: Seq<Entity>,
    kind: ComponentId,
    entity: Entity,
)
    ensures
        ({
            let after = tables.swept(SweepModel::Touched(entities));
            &&& after.next_entity == tables.next_entity
            &&& after.entry(kind, entity) == match tables.entry(kind, entity) {
                Some(entry) => if entry.origin == Origin::Derived && (entry.owner matches Some(
                    owner,
                ) && exists|i: int|
                    0 <= i < owner.keys.len() && entities.contains(#[trigger] owner.keys[i])) {
                    None
                } else {
                    Some(entry)
                },
                None => None,
            }
        }),
{
    let sweep = SweepModel::Touched(entities);
    lemma_swept(tables, sweep);
    let after = tables.swept(sweep);
    assert(after.table(kind) == tables.table(kind).remove_keys(tables.swept_keys(kind, sweep)));
}

proof fn lemma_replacement<C: Component>(
    tables: TablesModel<C>,
    owner: Invocation,
    ops: Seq<OpModel<C>>,
    kind: ComponentId,
    entity: Entity,
)
    ensures
        ({
            let after = tables.swept(SweepModel::Owned(owner)).applied_all(ops, owner);
            &&& derived_by(after.entry(kind, entity), owner) ==> some_writes(
                ops,
                tables.next_entity,
                kind,
                entity,
            )
            &&& !some_writes(ops, tables.next_entity, kind, entity) ==> after.entry(kind, entity)
                == if derived_by(tables.entry(kind, entity), owner) {
                None
            } else {
                tables.entry(kind, entity)
            }
            &&& forall|at: int, value: C::Model|
                #[trigger] inserts_last(ops, tables.next_entity, at, entity, value) ==> (after.entry(C::kind(value), entity) matches Some(entry) && entry.value
                    == value && derived_by(Some(entry), owner))
        }),
{
    let swept = tables.swept(SweepModel::Owned(owner));
    lemma_owned_sweep_is_exact(tables, owner, kind, entity);
    lemma_unwritten_stays(swept, ops, owner, kind, entity);
    let after = swept.applied_all(ops, owner);
    assert forall|at: int, value: C::Model|
        #[trigger] inserts_last(ops, tables.next_entity, at, entity, value) implies (after.entry(C::kind(value), entity) matches Some(entry) && entry.value
        == value && derived_by(Some(entry), owner)) by {
        lemma_last_write_stays(swept, ops, owner, at, entity, value);
    }
}

/// What an invocation derives is replaced as a unit when it runs again: afterwards
/// every component that it owns was written by this run; what it derived before and
/// did not write again is gone, and what others put stays. What it inserts last is
/// read back, and what it observed is remembered.
pub proof fn lemma_rerun_replaces_outputs<C: Component>(
    data: DataModel<C>,
    owner: Invocation,
    deps: Seq<Dep>,
    ops: Seq<OpModel<C>>,
    kind: ComponentId,
    entity: Entity,
    other: Invocation,
)
    ensures
        ({
            let after = data.recorded(owner, deps, ops);
            let next_entity = data.tables.next_entity;
            &&& derived_by(after.tables.entry(kind, entity), owner) ==> some_writes(
                ops,
                next_entity,
                kind,
                entity,
            )
            &&& !some_writes(ops, next_entity, kind, entity) ==> after.tables.entry(kind, entity)
                == if derived_by(data.tables.entry(kind, entity), owner) {
                None
            } else {
                data.tables.entry(kind, entity)
            }
            &&& forall|at: int, value: C::Model|
                #[trigger] inserts_last(ops, next_entity, at, entity, value) ==> (after.tables.entry(C::kind(value), entity) matches Some(entry)
                    && entry.value == value && derived_by(Some(entry), owner))
            &&& after.memo.contains_key(owner) && after.memo[owner] == deps
            &&& other != owner ==> (after.memo.contains_key(other) <==> data.memo.contains_key(
                other,
            )) && (data.memo.contains_key(other) ==> after.memo[other] == data.memo[other])
        }),
{
    lemma_replacement(data.tables, owner, ops, kind, entity);
}

/// What the completion of a system derives is replaced as a unit, too, and what is
/// remembered of invocations stays.
pub proof fn lemma_completion_replaces_outputs<C: Component>(
    data: DataModel<C>,
    system: SystemId,
    ops: Seq<OpModel<C>>,
    kind: ComponentId,
    entity: Entity,
)
    ensures
        ({
            let owner = Invocation { system, keys: Seq::<Entity>::empty() };
            let after = data.completed(system, ops);
            let next_entity = data.tables.next_entity;
            &&& after.memo == data.memo
            &&& after.order == data.order
            &&& derived_by(after.tables.entry(kind, entity), owner) ==> some_writes(
                ops,
                next_entity,
                kind,
                entity,
            )
            &&& !some_writes(ops, next_entity, kind, entity) ==> after.tables.entry(kind, entity)
                == if derived_by(data.tables.entry(kind, entity), owner) {
                None
            } else {
                data.tables.entry(kind, entity)
            }
            &&& forall|at: int, value: C::Model|
                #[trigger] inserts_last(ops, next_entity, at, entity, value) ==> (after.tables.entry(C::kind(value), entity) matches Some(entry)
                    && entry.value == value && derived_by(Some(entry), owner))
        }),
{
    assert(completion_owner(system) == Invocation { system, keys: Seq::<Entity>::empty() });
    lemma_replacement(data.tables, completion_owner(system), ops, kind, entity);
}

/// An invocation that is dropped leaves nothing that it derived, and is not
/// remembered; everything else stays.
pub proof fn lemma_dropped_invocation_leaves_nothing<C: Component>(
    data: DataModel<C>,
    owner: Invocation,
    kind: ComponentId,
    entity: Entity,
    other: Invocation,
)
    ensures
        ({
            let after = data.dropped(owner);
            &&& after.tables.entry(kind, entity) == if derived_by(
                data.tables.entry(kind, entity),
                owner,
            ) {
                None
            } else {
                data.tables.entry(kind, entity)
            }
            &&& !after.memo.contains_key(owner)
            &&& other != owner ==> (after.memo.contains_key(other) <==> data.memo.contains_key(
                other,
            )) && (data.memo.contains_key(other) ==> after.memo[other] == data.memo[other])
        }),
{
    lemma_owned_sweep_is_exact(data.tables, owner, kind, entity);
}

/// A component that is taken out is gone. If an invocation derived it, that
/// invocation is dropped with all that it derived; otherwise nothing else moves.
pub proof fn lemma_taken_component_is_gone<C: Component>(
    data: DataModel<C>,
    kind: ComponentId,
    entity: Entity,
    other_kind: ComponentId,
    other: Entity,
)
    ensures
        ({
            let after = data.taken(kind, entity);
            let maker = match data.tables.entry(kind, entity) {
                Some(entry) => entry.owner,
                None => None,
            };
            &&& after.tables.entry(kind, entity) is None
            &&& (other_kind, other.id()) != (kind, entity.id()) ==> after.tables.entry(
                other_kind,
                other,
            ) == if maker is Some && derived_by(data.tables.entry(other_kind, other), maker->0) {
                None
            } else {
                data.tables.entry(other_kind, other)
            }
            &&& maker is Some ==> !after.memo.contains_key(maker->0)
            &&& maker is None ==> after.memo == data.memo && after.order == data.order
        }),
{
    let without = DataModel { tables: data.tables.removed(kind, entity), ..data };
    lemma_removal_is_local(data.tables, kind, entity, other_kind, other);
    lemma_removal_is_local(data.tables, kind, entity, kind, entity);
    if let Some(entry) = data.tables.entry(kind, entity) {
        if let Some(owner) = entry.owner {
            lemma_owned_sweep_is_exact(without.tables, owner, other_kind, other);
            lemma_owned_sweep_is_exact(without.tables, owner, kind, entity);
        }
    }
}

/// The rows of a shape are, in ascending order, exactly the entities that carry all
/// its components; of a joined shape only those that were handed out.
pub proof fn lemma_rows_carry_the_shape<C: Component>(
    shape: ShapeModel,
    tables: TablesModel<C>,
    entity: Entity,
)
    ensures
        ascending(shape.rows(tables)),
        shape.rows(tables).contains(entity.id()) <==> ((forall|i: int|
            0 <= i < shape.kinds.len() ==> tables.entry(#[trigger] shape.kinds[i], entity) is Some)
            && (shape.joined ==> entity.id() < tables.next_entity)),
{
    let keys = Set::new(|id: u64| shape.admits(tables, id));
    crate::model::lemma_sorted_keys_list(keys);
    crate::entity::lemma_entity_is_its_id(Entity::of(entity.id()), entity);
    assert(shape.rows(tables).to_set().contains(entity.id()) <==> keys.contains(entity.id()));
    if shape.has_all(tables, entity) {
        assert forall|i: int| 0 <= i < shape.kinds.len() implies tables.entry(
            #[trigger] shape.kinds[i],
            entity,
        ) is Some by {
            assert(tables.has(shape.kinds[i], entity));
        }
    }
    if forall|i: int|
        0 <= i < shape.kinds.len() ==> tables.entry(#[trigger] shape.kinds[i], entity) is Some {
        assert forall|i: int| 0 <= i < shape.kinds.len() implies tables.has(
            #[trigger] shape.kinds[i],
            entity,
        ) by {
            assert(tables.entry(shape.kinds[i], entity) is Some);
        }
    }
}

/// Whether `dep` tells at which revision `kind` stands on `entity`.
pub open spec fn tells<C: Component>(
    dep: Dep,
    tables: TablesModel<C>,
    kind: ComponentId,
    entity: Entity,
) -> bool {
    &&& dep.component == kind
    &&& dep.entity == Some(entity)
    &&& !dep.absent
    &&& tables.entry(kind, entity) matches Some(entry) && dep.revision == entry.revision
}

proof fn lemma_shape_deps<C: Component>(
    shape: ShapeModel,
    tables: TablesModel<C>,
    entity: Entity,
    count: nat,
)
    requires
        count <= shape.kinds.len(),
        shape.deps_of(tables, entity, count) is Ok,
    ensures
        forall|i: int|
            0 <= i < count && C::tracks(#[trigger] shape.kinds[i]) ==> exists|dep: Dep| #[trigger]
                shape.deps_of(tables, entity, count)->Ok_0.contains(dep) && tells(
                    dep,
                    tables,
                    shape.kinds[i],
                    entity,
                ),
        forall|dep: Dep| #[trigger]
            shape.deps_of(tables, entity, count)->Ok_0.contains(dep) ==> tells(
                dep,
                tables,
                dep.component,
                entity,
            ) && C::tracks(dep.component) && shape.kinds.contains(dep.component),
    decreases count,
{
    let all = shape.deps_of(tables, entity, count)->Ok_0;
    if count > 0 {
        let fewer = (count - 1) as nat;
        let kind = shape.kinds[count - 1];
        lemma_shape_deps(shape, tables, entity, fewer);
        let before = shape.deps_of(tables, entity, fewer)->Ok_0;
        assert(shape.kinds.contains(kind));
        assert forall|dep: Dep| #[trigger] before.contains(dep) implies all.contains(dep) by {
            if C::tracks(kind) {
                lemma_pushed(before, all.last(), dep);
                assert(all =~= before.push(all.last()));
            }
        }
        if C::tracks(kind) {
            assert(all =~= before.push(all.last()));
            assert(all.contains(all.last()));
            assert(tells(all.last(), tables, kind, entity));
        }
        assert forall|i: int| 0 <= i < count && C::tracks(#[trigger] shape.kinds[i]) implies exists|
            dep: Dep,
        | #[trigger] all.contains(dep) && tells(dep, tables, shape.kinds[i], entity) by {
            if i < fewer {
                let dep = choose|dep: Dep| #[trigger]
                    before.contains(dep) && tells(dep, tables, shape.kinds[i], entity);
                assert(all.contains(dep));
            } else {
                assert(all.contains(all.last()));
            }
        }
        assert forall|dep: Dep| #[trigger] all.contains(dep) implies tells(
            dep,
            tables,
            dep.component,
            entity,
        ) && C::tracks(dep.component) && shape.kinds.contains(dep.component) by {
            if C::tracks(kind) {
                lemma_pushed(before, all.last(), dep);
            }
        }
    }
}

proof fn lemma_row_observations<C: Component>(
    shapes: Seq<ShapeModel>,
    tables: TablesModel<C>,
    keys: Seq<Entity>,
    count: nat,
)
    requires
        count <= shapes.len(),
        observed(shapes, tables, keys, count) is Ok,
    ensures
        forall|q: int, i: int|
            #![trigger shapes[q].kinds[i]]
            0 <= q < count && 0 <= i < shapes[q].kinds.len() && C::tracks(shapes[q].kinds[i])
                ==> exists|dep: Dep| #[trigger]
                observed(shapes, tables, keys, count)->Ok_0.contains(dep) && tells(
                    dep,
                    tables,
                    shapes[q].kinds[i],
                    keys[q],
                ),
        forall|dep: Dep| #[trigger]
            observed(shapes, tables, keys, count)->Ok_0.contains(dep) ==> observed_of::<C>(
                shapes,
                tables,
                keys,
                count,
                dep,
            ),
    decreases count,
{
    let all = observed(shapes, tables, keys, count)->Ok_0;
    if count > 0 {
        let fewer = (count - 1) as nat;
        lemma_row_observations(shapes, tables, keys, fewer);
        let before = observed(shapes, tables, keys, fewer)->Ok_0;
        let last = shapes[fewer as int];
        let more = last.deps(tables, keys[fewer as int])->Ok_0;
        lemma_shape_deps(last, tables, keys[fewer as int], last.kinds.len());
        assert forall|dep: Dep| #[trigger] all.contains(dep) <==> (before.contains(dep)
            || more.contains(dep)) by {
            lemma_joined(before, more, dep);
        }
        assert forall|q: int, i: int|
            #![trigger shapes[q].kinds[i]]
            0 <= q < count && 0 <= i < shapes[q].kinds.len() && C::tracks(
                shapes[q].kinds[i],
            ) implies exists|dep: Dep| #[trigger]
            all.contains(dep) && tells(dep, tables, shapes[q].kinds[i], keys[q]) by {
            if q < fewer {
                let dep = choose|dep: Dep| #[trigger]
                    before.contains(dep) && tells(dep, tables, shapes[q].kinds[i], keys[q]);
                assert(all.contains(dep));
            } else {
                let dep = choose|dep: Dep| #[trigger]
                    more.contains(dep) && tells(dep, tables, last.kinds[i], keys[q]);
                assert(all.contains(dep));
            }
        }
        assert forall|dep: Dep| #[trigger] all.contains(dep) implies observed_of::<C>(
            shapes,
            tables,
            keys,
            count,
            dep,
        ) by {
            if before.contains(dep) {
                let q = choose|q: int|
                    0 <= q < fewer && tells(dep, tables, dep.component, #[trigger] keys[q])
                        && C::tracks(dep.component) && shapes[q].kinds.contains(dep.component);
                assert(tells(dep, tables, dep.component, keys[q]));
            } else {
                assert(tells(dep, tables, dep.component, keys[fewer as int]));
            }
        }
    }
}

/// Whether `dep` tells of a tracked component of one of the first `count` rows.
pub open spec fn observed_of<C: Component>(
    shapes: Seq<ShapeModel>,
    tables: TablesModel<C>,
    keys: Seq<Entity>,
    count: nat,
    dep: Dep,
) -> bool {
    exists|q: int|
        0 <= q < count && tells(dep, tables, dep.component, #[trigger] keys[q]) && C::tracks(
            dep.component,
        ) && shapes[q].kinds.contains(dep.component)
}

/// An invocation observes the revision of every tracked component on each of its
/// rows, and nothing else.
pub proof fn lemma_invocation_observes_its_rows<C: Component>(
    shapes: Seq<ShapeModel>,
    tables: TablesModel<C>,
    keys: Seq<Entity>,
)
    requires
        observed(shapes, tables, keys, shapes.len()) is Ok,
    ensures
        forall|q: int, i: int|
            #![trigger shapes[q].kinds[i]]
            0 <= q < shapes.len() && 0 <= i < shapes[q].kinds.len() && C::tracks(
                shapes[q].kinds[i],
            ) ==> exists|dep: Dep| #[trigger]
                observed(shapes, tables, keys, shapes.len())->Ok_0.contains(dep) && tells(
                    dep,
                    tables,
                    shapes[q].kinds[i],
                    keys[q],
                ),
        forall|dep: Dep| #[trigger]
            observed(shapes, tables, keys, shapes.len())->Ok_0.contains(dep) ==> observed_of::<C>(
                shapes,
                tables,
                keys,
                shapes.len(),
                dep,
            ),
{
    lemma_row_observations(shapes, tables, keys, shapes.len());
}

/// When a tracked component of one of its rows has another revision than when it ran,
/// an invocation is not taken as done: it runs again.
pub proof fn lemma_changed_row_runs_again<C: Component>(
    data: DataModel<C>,
    then: TablesModel<C>,
    shapes: Seq<ShapeModel>,
    owner: Invocation,
    q: int,
    i: int,
)
    requires
        observed(shapes, then, owner.keys, shapes.len()) matches Ok(deps)
            && data.memo.contains_key(owner) && data.memo[owner] == deps,
        observed(shapes, data.tables, owner.keys, shapes.len()) is Ok,
        0 <= q < shapes.len(),
        0 <= i < shapes[q].kinds.len(),
        C::tracks(shapes[q].kinds[i]),
        match (
            then.entry(shapes[q].kinds[i], owner.keys[q]),
            data.tables.entry(shapes[q].kinds[i], owner.keys[q]),
        ) {
            (Some(old), Some(new)) => old.revision != new.revision,
            _ => true,
        },
    ensures
        !data.memoized(owner, observed(shapes, data.tables, owner.keys, shapes.len())->Ok_0),
{
    let kind = shapes[q].kinds[i];
    let row = owner.keys[q];
    let old = observed(shapes, then, owner.keys, shapes.len())->Ok_0;
    let new = observed(shapes, data.tables, owner.keys, shapes.len())->Ok_0;
    lemma_invocation_observes_its_rows(shapes, then, owner.keys);
    lemma_invocation_observes_its_rows(shapes, data.tables, owner.keys);
    let dep = choose|dep: Dep| #[trigger] old.contains(dep) && tells(dep, then, kind, row);
    if old == new {
        assert(new.contains(dep));
        assert(observed_of::<C>(shapes, data.tables, owner.keys, shapes.len(), dep));
        let p = choose|p: int|
            0 <= p < shapes.len() && tells(
                dep,
                data.tables,
                dep.component,
                #[trigger] owner.keys[p],
            ) && C::tracks(dep.component) && shapes[p].kinds.contains(dep.component);
        assert(owner.keys[p] == row);
    }
}

/// An invocation is passed over exactly when it ran and would observe the same.
pub proof fn lemma_passed_over_when_nothing_changed<C: Component>(
    data: DataModel<C>,
    owner: Invocation,
    deps: Seq<Dep>,
)
    ensures
        !data.memo.contains_key(owner) ==> !data.memoized(owner, deps),
        data.memo.contains_key(owner) ==> (data.memoized(owner, deps) <==> data.memo[owner]
            == deps),
{
}

/// The invocations of a system that stand for no rows any more are listed, and no
/// others: those of which some key is no row of its query.
pub proof fn lemma_unseen_invocations<C: Component>(
    order: Seq<Invocation>,
    system: SystemId,
    lists: Seq<Seq<u64>>,
    owner: Invocation,
)
    ensures
        unseen(order, system, lists).contains(owner) <==> (order.contains(owner) && owner.system
            == system && !(owner.keys.len() == lists.len() && forall|q: int|
            0 <= q < lists.len() ==> (#[trigger] lists[q]).contains(owner.keys[q].id()))),
    decreases order.len(),
{
    if order.len() > 0 {
        lemma_unseen_invocations::<C>(order.drop_last(), system, lists, owner);
        lemma_last(order, owner);
        lemma_pushed(unseen(order.drop_last(), system, lists), order.last(), owner);
    }
}

/// Every combination of rows is looked at: for each choice of one row per query there
/// is a number below the number of combinations that stands for it.
pub proof fn lemma_every_combination_is_looked_at(
    lists: Seq<Seq<u64>>,
    picks: Seq<usize>,
)
    requires
        picks.len() == lists.len(),
        forall|q: int| 0 <= q < lists.len() ==> (#[trigger] lists[q]).len() <= usize::MAX,
        forall|q: int| 0 <= q < lists.len() ==> (#[trigger] picks[q]) < lists[q].len(),
    ensures
        exists|n: nat|
            n < combinations(lists) && (#[trigger] keys_at(lists, n)).len() == lists.len()
                && forall|q: int|
                0 <= q < lists.len() ==> (#[trigger] keys_at(lists, n)[q]).id()
                    == lists[q][picks[q] as int],
{
    let lengths = lengths_of(lists);
    assert forall|q: int| 0 <= q < picks.len() implies (#[trigger] picks[q]) < lengths[q] by {
        assert(lists[q].len() <= usize::MAX);
    }
    assert(in_range(picks, lengths));
    lemma_combination_of_number(picks, lengths);
    crate::pipeline::odometer::lemma_number_below_total(picks, lengths, lengths.len());
    let n = number(picks, lengths, lengths.len());
    assert(combination(lengths, n) == picks);
    assert(keys_at(lists, n).len() == lists.len());
}

/// What passes a filter: exactly the rows that it lets through.
pub proof fn lemma_passing_rows<C: ComparableComponent, F: FilterExpr<C>>(
    tables: TablesModel<C>,
    bindings: BindingMap<C>,
    rows: Seq<Entity>,
    row: Entity,
)
    requires
        passing::<C, F>(tables, bindings, rows) is Ok,
    ensures
        passing::<C, F>(tables, bindings, rows)->Ok_0.contains(row) <==> (rows.contains(row)
            && F::verdict(tables, bindings, row) == Ok::<bool, ComponentId>(true)),
        passing::<C, F>(tables, bindings, rows)->Ok_0.len() <= rows.len(),
    decreases rows.len(),
{
    if rows.len() > 0 {
        let rest = rows.drop_last();
        lemma_passing_rows::<C, F>(tables, bindings, rest, row);
        lemma_last(rows, row);
        lemma_pushed(passing::<C, F>(tables, bindings, rest)->Ok_0, rows.last(), row);
    }
}

/// A query cannot be answered exactly when its filter cannot be decided on one of
/// its rows.
pub proof fn lemma_undecided_rows<C: ComparableComponent, F: FilterExpr<C>>(
    tables: TablesModel<C>,
    bindings: BindingMap<C>,
    rows: Seq<Entity>,
)
    ensures
        passing::<C, F>(tables, bindings, rows) is Err <==> exists|i: int|
            0 <= i < rows.len() && F::verdict(tables, bindings, #[trigger] rows[i]) is Err,
    decreases rows.len(),
{
    if rows.len() > 0 {
        let rest = rows.drop_last();
        lemma_undecided_rows::<C, F>(tables, bindings, rest);
        if passing::<C, F>(tables, bindings, rest) is Err {
            let i = choose|i: int|
                0 <= i < rest.len() && F::verdict(tables, bindings, #[trigger] rest[i]) is Err;
            assert(F::verdict(tables, bindings, rows[i]) is Err);
        } else if F::verdict(tables, bindings, rows.last()) is Err {
            assert(F::verdict(tables, bindings, rows[rows.len() - 1]) is Err);
        }
        if exists|i: int|
            0 <= i < rows.len() && F::verdict(tables, bindings, #[trigger] rows[i]) is Err {
            let i = choose|i: int|
                0 <= i < rows.len() && F::verdict(tables, bindings, #[trigger] rows[i]) is Err;
            if i < rest.len() {
                assert(F::verdict(tables, bindings, rest[i]) is Err);
            }
        }
    }
}

/// A filter for the presence of a component lets exactly its carriers through, one
/// for its absence exactly the others, and no filter lets everything through.
pub proof fn lemma_presence_filters<C: ComparableComponent, T: ComponentType<Universe = C>>(
    tables: TablesModel<C>,
    bindings: BindingMap<C>,
    entity: Entity,
)
    ensures
        ({
            let there = tables.entry(T::key(), entity) is Some;
            &&& <With<T> as FilterExpr<C>>::verdict(tables, bindings, entity) == Ok::<
                bool,
                ComponentId,
            >(there)
            &&& <Without<T> as FilterExpr<C>>::verdict(tables, bindings, entity) == Ok::<
                bool,
                ComponentId,
            >(!there)
            &&& <Always as FilterExpr<C>>::verdict(tables, bindings, entity) == Ok::<
                bool,
                ComponentId,
            >(true)
        }),
{
}

/// A filter that compares lets an entity through exactly when it carries the
/// component and its value equals, or is at least, the bound one. Only a carrier
/// needs a bound value.
pub proof fn lemma_comparing_filters<C: ComparableComponent, T: ComponentType<Universe = C>>(
    tables: TablesModel<C>,
    bindings: BindingMap<C>,
    entity: Entity,
)
    ensures
        ({
            let equals = <crate::query::Eq<T> as FilterExpr<C>>::verdict(tables, bindings, entity);
            let reaches = <Gte<T> as FilterExpr<C>>::verdict(tables, bindings, entity);
            match tables.entry(T::key(), entity) {
                None => equals == Ok::<bool, ComponentId>(false) && reaches == Ok::<
                    bool,
                    ComponentId,
                >(false),
                Some(entry) => if bindings.contains_key(T::key()) {
                    &&& equals == Ok::<bool, ComponentId>(
                        C::equal(entry.value, bindings[T::key()]),
                    )
                    &&& reaches == Ok::<bool, ComponentId>(
                        C::at_least(entry.value, bindings[T::key()]),
                    )
                } else {
                    equals == Err::<bool, ComponentId>(T::key()) && reaches == Err::<
                        bool,
                        ComponentId,
                    >(T::key())
                },
            }
        }),
{
}

/// Filters combine as truth values do: of two that can be decided, both let a row
/// through, one of them does, or the one does not. A conjunction is decided by a
/// first part that fails, a disjunction by a first part that passes, whatever the
/// second needs; otherwise what cannot be decided is reported.
pub proof fn lemma_filters_combine<
    C: ComparableComponent,
    A: FilterExpr<C>,
    B: FilterExpr<C>,
>(tables: TablesModel<C>, bindings: BindingMap<C>, entity: Entity)
    ensures
        ({
            let a = A::verdict(tables, bindings, entity);
            let b = B::verdict(tables, bindings, entity);
            let both = <And<A, B> as FilterExpr<C>>::verdict(tables, bindings, entity);
            let either = <Or<A, B> as FilterExpr<C>>::verdict(tables, bindings, entity);
            let neither = <Not<A> as FilterExpr<C>>::verdict(tables, bindings, entity);
            match (a, b) {
                (Ok(x), Ok(y)) => {
                    &&& both == Ok::<bool, ComponentId>(x && y)
                    &&& either == Ok::<bool, ComponentId>(x || y)
                    &&& neither == Ok::<bool, ComponentId>(!x)
                },
                (Ok(x), Err(kind)) => {
                    &&& both == if x {
                        Err::<bool, ComponentId>(kind)
                    } else {
                        Ok(false)
                    }
                    &&& either == if x {
                        Ok::<bool, ComponentId>(true)
                    } else {
                        Err(kind)
                    }
                    &&& neither == Ok::<bool, ComponentId>(!x)
                },
                (Err(kind), _) => {
                    &&& both == Err::<bool, ComponentId>(kind)
                    &&& either == Err::<bool, ComponentId>(kind)
                    &&& neither == Err::<bool, ComponentId>(kind)
                },
            }
        }),
{
}

/// Negating a disjunction is the conjunction of the negations, negating a conjunction
/// the disjunction of the negations, and two negations cancel out.
pub proof fn lemma_negations<C: ComparableComponent, A: FilterExpr<C>, B: FilterExpr<C>>(
    tables: TablesModel<C>,
    bindings: BindingMap<C>,
    entity: Entity,
)
    ensures
        <Not<Or<A, B>> as FilterExpr<C>>::verdict(tables, bindings, entity) == <And<
            Not<A>,
            Not<B>,
        > as FilterExpr<C>>::verdict(tables, bindings, entity),
        <Not<And<A, B>> as FilterExpr<C>>::verdict(tables, bindings, entity) == <Or<
            Not<A>,
            Not<B>,
        > as FilterExpr<C>>::verdict(tables, bindings, entity),
        <Not<Not<A>> as FilterExpr<C>>::verdict(tables, bindings, entity) == A::verdict(
            tables,
            bindings,
            entity,
        ),
{
}

/// A filter observes each tracked component whose presence or value it asks for, and
/// combined filters observe what their parts do.
pub proof fn lemma_filters_observe<
    C: ComparableComponent,
    T: ComponentType<Universe = C>,
    A: FilterExpr<C>,
    B: FilterExpr<C>,
>(tables: TablesModel<C>, entity: Entity, dep: Dep)
    ensures
        ({
            let told = C::tracks(T::key()) && tells(dep, tables, T::key(), entity);
            let a = A::observes(tables, entity);
            let b = B::observes(tables, entity);
            &&& <With<T> as FilterExpr<C>>::observes(tables, entity).contains(dep) <==> told
            &&& <crate::query::Eq<T> as FilterExpr<C>>::observes(tables, entity).contains(dep)
                <==> told
            &&& <Gte<T> as FilterExpr<C>>::observes(tables, entity).contains(dep) <==> told
            &&& !<Without<T> as FilterExpr<C>>::observes(tables, entity).contains(dep)
            &&& <And<A, B> as FilterExpr<C>>::observes(tables, entity).contains(dep) <==> (
            a.contains(dep) || b.contains(dep))
            &&& <Or<A, B> as FilterExpr<C>>::observes(tables, entity).contains(dep) <==> (
            a.contains(dep) || b.contains(dep))
            &&& <Not<A> as FilterExpr<C>>::observes(tables, entity).contains(dep) <==> a.contains(
                dep,
            )
        }),
{
    lemma_joined(A::observes(tables, entity), B::observes(tables, entity), dep);
    let own = <With<T> as FilterExpr<C>>::observes(tables, entity);
    if own.len() > 0 {
        assert(own =~= seq![own[0]]);
        if C::tracks(T::key()) && tells(dep, tables, T::key(), entity) {
            assert(own[0] == dep);
        }
    }
}

/// Cleaning up a database without ephemeral entities changes nothing.
pub proof fn lemma_nothing_to_tidy<C: Component>(data: DataModel<C>, ephemeral: ComponentId)
    requires
        forall|entity: Entity| #[trigger] data.tables.entry(ephemeral, entity) is None,
    ensures
        data.tidied(ephemeral) == data,
{
    assert(data.tables.table(ephemeral).dom() =~= Set::<u64>::empty()) by {
        assert forall|id: u64| !data.tables.table(ephemeral).contains_key(id) by {
            assert(data.tables.entry(ephemeral, Entity::of(id)) is None);
        }
    }
}

} // verus!
