//! What goes with an entity or an invocation, and what does not; what stands when a
//! system has run.

use crate::component::{Component, ComponentId};
use crate::entity::Entity;
use crate::invocation::{without_invocation, Invocation, SystemId};
use crate::model::{next, sorted_keys, Origin};
use crate::pipeline::cleanup::{listing, touched_in};
use crate::pipeline::commands::OpModel;
use crate::pipeline::config::{CompleteCallback, ConfigModel};
use crate::pipeline::db::{completions, row_entities, row_of};
use crate::pipeline::rows::{GoneComponent, ShapeModel};
use crate::pipeline::run::{
    added, combinations, first_gone, invoked_then, keys_at, row_lists, seen, unseen, DataModel, SystemBody,
};
use crate::pipeline::table_laws::{
    derived_by, lemma_dropped_invocation_leaves_nothing, lemma_insert_is_read_back,
    lemma_touched_sweep_is_exact,
    lemma_unseen_invocations,
};
use crate::pipeline::tables::{lemma_cleared, SweepModel, TablesModel};
use crate::seq_laws::{lemma_last, lemma_pushed};
use vstd::prelude::*;

verus! {

/// Whether `owner` has one of `entities` among its rows.
pub open spec fn keyed(owner: Invocation, entities: Seq<Entity>) -> bool {
    exists|i: int| 0 <= i < owner.keys.len() && entities.contains(#[trigger] owner.keys[i])
}

/// The invocations that entities touch are those that have one of them as a row.
pub proof fn lemma_touched_invocations(
    order: Seq<Invocation>,
    entities: Seq<Entity>,
    owner: Invocation,
)
    ensures
        touched_in(order, entities).contains(owner) <==> order.contains(owner) && keyed(
            owner,
            entities,
        ),
    decreases order.len(),
{
    if order.len() > 0 {
        let rest = order.drop_last();
        lemma_touched_invocations(rest, entities, owner);
        lemma_last(order, owner);
        lemma_pushed(touched_in(rest, entities), order.last(), owner);
    }
}

/// Forgotten invocations are off the record, the others stay on it; no component goes.
pub proof fn lemma_forgotten_invocations<C: Component>(
    data: DataModel<C>,
    owners: Seq<Invocation>,
    other: Invocation,
)
    ensures
        data.forgotten_each(owners).memo.contains_key(other) <==> data.memo.contains_key(other)
            && !owners.contains(other),
        data.forgotten_each(owners).memo.contains_key(other) ==> data.forgotten_each(
            owners,
        ).memo[other] == data.memo[other],
        data.forgotten_each(owners).tables == data.tables,
    decreases owners.len(),
{
    if owners.len() > 0 {
        lemma_forgotten_invocations(data, owners.drop_last(), other);
        lemma_last(owners, other);
    }
}

/// Dropped invocations are off the record with all that they derived; what others
/// derived or callers put stays, and so do the other records.
pub proof fn lemma_dropped_invocations<C: Component>(
    data: DataModel<C>,
    owners: Seq<Invocation>,
    other: Invocation,
    kind: ComponentId,
    entity: Entity,
)
    ensures
        ({
            let after = data.dropped_each(owners);
            &&& after.memo.contains_key(other) <==> data.memo.contains_key(other)
                && !owners.contains(other)
            &&& after.memo.contains_key(other) ==> after.memo[other] == data.memo[other]
            &&& after.tables.entry(kind, entity) == if exists|i: int|
                0 <= i < owners.len() && derived_by(
                    data.tables.entry(kind, entity),
                    #[trigger] owners[i],
                ) {
                None
            } else {
                data.tables.entry(kind, entity)
            }
        }),
    decreases owners.len(),
{
    if owners.len() > 0 {
        let rest = owners.drop_last();
        let last = owners.last();
        lemma_dropped_invocations(data, rest, other, kind, entity);
        lemma_dropped_invocation_leaves_nothing(
            data.dropped_each(rest),
            last,
            kind,
            entity,
            other,
        );
        lemma_last(owners, other);
        let old = data.tables.entry(kind, entity);
        if exists|i: int| 0 <= i < owners.len() && derived_by(old, #[trigger] owners[i]) {
            let i = choose|i: int| 0 <= i < owners.len() && derived_by(old, #[trigger] owners[i]);
            if i < rest.len() {
                assert(derived_by(old, rest[i]));
            }
        }
        if exists|i: int| 0 <= i < rest.len() && derived_by(old, #[trigger] rest[i]) {
            let i = choose|i: int| 0 <= i < rest.len() && derived_by(old, #[trigger] rest[i]);
            assert(derived_by(old, owners[i]));
        }
        if derived_by(old, last) {
            assert(derived_by(old, owners[owners.len() - 1]));
        }
    }
}

proof fn lemma_makers_in<C: Component>(
    tables: TablesModel<C>,
    kinds: Seq<ComponentId>,
    entity: Entity,
    owner: Invocation,
)
    ensures
        tables.makers_in(kinds, entity).contains(owner) <==> exists|i: int|
            0 <= i < kinds.len() && derived_by(tables.entry(#[trigger] kinds[i], entity), owner),
    decreases kinds.len(),
{
    if kinds.len() > 0 {
        let rest = kinds.drop_last();
        lemma_makers_in(tables, rest, entity, owner);
        if let Some(entry) = tables.entry(kinds.last(), entity) {
            if let Some(maker) = entry.owner {
                lemma_pushed(tables.makers_in(rest, entity), maker, owner);
            }
        }
        if exists|i: int|
            0 <= i < kinds.len() && derived_by(tables.entry(#[trigger] kinds[i], entity), owner) {
            let i = choose|i: int|
                0 <= i < kinds.len() && derived_by(
                    tables.entry(#[trigger] kinds[i], entity),
                    owner,
                );
            if i < rest.len() {
                assert(derived_by(tables.entry(rest[i], entity), owner));
            }
        }
        if exists|i: int|
            0 <= i < rest.len() && derived_by(tables.entry(#[trigger] rest[i], entity), owner) {
            let i = choose|i: int|
                0 <= i < rest.len() && derived_by(tables.entry(#[trigger] rest[i], entity), owner);
            assert(derived_by(tables.entry(kinds[i], entity), owner));
        }
        if derived_by(tables.entry(kinds.last(), entity), owner) {
            assert(derived_by(tables.entry(kinds[kinds.len() - 1], entity), owner));
        }
    }
}

/// The makers of an entity are the invocations that derived a component on it.
pub proof fn lemma_makers_of_an_entity<C: Component>(
    tables: TablesModel<C>,
    entity: Entity,
    owner: Invocation,
)
    ensures
        tables.makers(entity).contains(owner) <==> exists|kind: ComponentId| #[trigger]
            derived_by(tables.entry(kind, entity), owner),
{
    let kinds = tables.kinds();
    lemma_makers_in(tables, kinds, entity, owner);
    crate::model::lemma_sorted_keys_list(tables.tables.dom());
    if exists|kind: ComponentId| #[trigger] derived_by(tables.entry(kind, entity), owner) {
        let kind = choose|kind: ComponentId| #[trigger]
            derived_by(tables.entry(kind, entity), owner);
        assert(tables.tables.contains_key(kind));
        assert(kinds.to_set().contains(kind));
        let i = choose|i: int| 0 <= i < kinds.len() && kinds[i] == kind;
        assert(derived_by(tables.entry(kinds[i], entity), owner));
    }
}

/// Sweeping components away moves the revision exactly when a tracked one goes.
pub proof fn lemma_sweeping_a_table_moves_the_revision<C: Component>(
    tables: TablesModel<C>,
    kind: ComponentId,
    sweep: SweepModel,
    id: u64,
)
    requires
        tables.table(kind).contains_key(id),
        sweep.takes(tables.table(kind)[id]),
    ensures
        tables.swept_table(kind, sweep).revision == if C::tracks(kind) {
            next(tables.revision)
        } else {
            tables.revision
        },
        !tables.swept_table(kind, sweep).table(kind).contains_key(id),
{
    assert(tables.swept_keys(kind, sweep).contains(id));
}

/// A list of ids lists each once, ascending, as entities.
pub proof fn lemma_listing(ids: Set<u64>, entity: Entity)
    ensures
        listing(ids).contains(entity) <==> ids.contains(entity.id()),
{
    let raw = sorted_keys(ids);
    crate::model::lemma_sorted_keys_list(ids);
    let all = listing(ids);
    if all.contains(entity) {
        let i = choose|i: int| 0 <= i < all.len() && all[i] == entity;
        assert(raw[i] == entity.id());
        assert(raw.to_set().contains(entity.id()));
    }
    if ids.contains(entity.id()) {
        assert(raw.to_set().contains(entity.id()));
        let i = choose|i: int| 0 <= i < raw.len() && raw[i] == entity.id();
        crate::entity::lemma_entity_is_its_id(all[i], entity);
    }
}

proof fn lemma_cleared_each<C: Component>(
    data: DataModel<C>,
    entities: Seq<Entity>,
    kind: ComponentId,
    entity: Entity,
)
    ensures
        data.cleared_each(entities).tables.entry(kind, entity) == if entities.contains(entity) {
            None
        } else {
            data.tables.entry(kind, entity)
        },
        data.cleared_each(entities).memo == data.memo,
        data.cleared_each(entities).order == data.order,
    decreases entities.len(),
{
    if entities.len() > 0 {
        let before = data.cleared_each(entities.drop_last());
        lemma_cleared_each(data, entities.drop_last(), kind, entity);
        lemma_cleared(before.tables, entities.last());
        lemma_last(entities, entity);
        if entities.last().id() == entity.id() {
            crate::entity::lemma_entity_is_its_id(entities.last(), entity);
        }
    }
}

proof fn lemma_no_makers<C: Component>(data: DataModel<C>, entities: Seq<Entity>)
    requires
        forall|kind: ComponentId, entity: Entity|
            entities.contains(entity) ==> ((#[trigger] data.tables.entry(
                kind,
                entity,
            )) matches Some(entry) ==> entry.origin != Origin::Derived || entry.owner is None),
    ensures
        data.makers_each(entities).len() == 0,
    decreases entities.len(),
{
    if entities.len() > 0 {
        let rest = entities.drop_last();
        let last = entities.last();
        assert forall|kind: ComponentId, entity: Entity| rest.contains(entity) implies ((
        #[trigger] data.tables.entry(kind, entity)) matches Some(entry) ==> entry.origin
            != Origin::Derived || entry.owner is None) by {
            lemma_last(entities, entity);
        }
        lemma_no_makers(data, rest);
        let tables = data.cleared_each(rest).tables;
        let makers = tables.makers(last);
        if makers.len() > 0 {
            let owner = makers[0];
            assert(makers.contains(owner));
            lemma_makers_of_an_entity(tables, last, owner);
            let kind = choose|kind: ComponentId| #[trigger]
                derived_by(tables.entry(kind, last), owner);
            lemma_cleared_each(data, rest, kind, last);
            lemma_last(entities, last);
            assert(tables.entry(kind, last) == data.tables.entry(kind, last));
        }
    }
}

/// Where nothing was derived from the entities that only live for a query, and nothing
/// on them was derived, cleaning up takes these entities and the records that have them
/// as rows, and nothing else.
pub proof fn lemma_cleanup_reaches_no_further<C: Component>(
    data: DataModel<C>,
    ephemeral: ComponentId,
    kind: ComponentId,
    entity: Entity,
    owner: Invocation,
)
    requires
        forall|k: ComponentId, e: Entity, maker: Invocation|
            #![trigger derived_by(data.tables.entry(k, e), maker)]
            derived_by(data.tables.entry(k, e), maker) ==> data.tables.entry(ephemeral, e) is None
                && forall|i: int|
                0 <= i < maker.keys.len() ==> data.tables.entry(
                    ephemeral,
                    #[trigger] maker.keys[i],
                ) is None,
    ensures
        ({
            let after = data.cleaned(ephemeral);
            &&& after.tables.entry(kind, entity) == if data.tables.entry(ephemeral, entity)
                is Some {
                None
            } else {
                data.tables.entry(kind, entity)
            }
            &&& (forall|i: int|
                0 <= i < owner.keys.len() ==> data.tables.entry(ephemeral, #[trigger] owner.keys[i])
                    is None) ==> (after.memo.contains_key(owner) <==> data.memo.contains_key(owner))
        }),
{
    let frontier = data.tables.table(ephemeral).dom();
    let list = listing(frontier);
    let sweep = SweepModel::Touched(list);
    assert forall|e: Entity| #[trigger] list.contains(e) <==> data.tables.entry(ephemeral, e)
        is Some by {
        lemma_listing(frontier, e);
    }
    assert forall|k: ComponentId, e: Entity|
        (#[trigger] data.tables.entry(k, e)) is Some implies !sweep.takes(
        data.tables.entry(k, e)->Some_0,
    ) by {
        let entry = data.tables.entry(k, e)->Some_0;
        if sweep.takes(entry) {
            let made = entry.owner->0;
            assert(derived_by(data.tables.entry(k, e), made));
            let i = choose|i: int| 0 <= i < made.keys.len() && list.contains(#[trigger] made.keys[i]);
            assert(data.tables.entry(ephemeral, made.keys[i]) is None);
        }
    }
    assert(data.hit(frontier).is_empty()) by {
        assert forall|id: u64| !#[trigger] data.hit(frontier).contains(id) by {
            if data.hit(frontier).contains(id) {
                let k = choose|k: ComponentId| #[trigger]
                    data.tables.swept_keys(k, sweep).contains(id);
                assert(data.tables.entry(k, Entity::of(id)) == Some(data.tables.table(k)[id]));
            }
        }
    }
    let quiet = data.unravelled(frontier, Set::empty());
    assert(data.hit(frontier).difference(Set::empty()).is_empty()) by {
        assert forall|id: u64| !#[trigger] data.hit(frontier).difference(Set::empty()).contains(
            id,
        ) by {
            assert(!data.hit(frontier).contains(id));
        }
    }
    let receded = data.receded(frontier);
    assert(quiet == data || quiet == receded);
    let touched = touched_in(data.order, list);
    lemma_forgotten_invocations(data, touched, owner);
    assert forall|k: ComponentId, e: Entity| #[trigger]
        quiet.tables.entry(k, e) == data.tables.entry(k, e) by {
        lemma_touched_sweep_is_exact(data.tables, list, k, e);
        let old = data.tables.entry(k, e);
        if old is Some {
            assert(!sweep.takes(old->Some_0));
        }
    }
    let entities = listing(quiet.tables.table(ephemeral).dom());
    assert forall|e: Entity| #[trigger] entities.contains(e) <==> data.tables.entry(ephemeral, e)
        is Some by {
        lemma_listing(quiet.tables.table(ephemeral).dom(), e);
        assert(quiet.tables.entry(ephemeral, e) == data.tables.entry(ephemeral, e));
    }
    assert forall|k: ComponentId, e: Entity|
        entities.contains(e) && (#[trigger] quiet.tables.entry(k, e)) is Some implies (
    quiet.tables.entry(k, e)->Some_0.origin != Origin::Derived
        || quiet.tables.entry(k, e)->Some_0.owner is None) by {
        let old = data.tables.entry(k, e);
        assert(quiet.tables.entry(k, e) == old);
        if old->Some_0.origin == Origin::Derived && old->Some_0.owner is Some {
            assert(derived_by(data.tables.entry(k, e), old->Some_0.owner->Some_0));
        }
    }
    lemma_no_makers(quiet, entities);
    let makers = quiet.makers_each(entities);
    let cleared = quiet.cleared_each(entities);
    lemma_cleared_each(quiet, entities, kind, entity);
    let gone = touched_in(cleared.order, entities);
    lemma_forgotten_invocations(cleared, gone, owner);
    lemma_dropped_invocations(
        cleared.without_touched(entities),
        makers,
        owner,
        kind,
        entity,
    );
    lemma_touched_invocations(cleared.order, entities, owner);
    lemma_touched_invocations(data.order, list, owner);
    if forall|i: int|
        0 <= i < owner.keys.len() ==> data.tables.entry(ephemeral, #[trigger] owner.keys[i])
            is None {
        assert(!keyed(owner, entities)) by {
            if keyed(owner, entities) {
                let i = choose|i: int|
                    0 <= i < owner.keys.len() && entities.contains(#[trigger] owner.keys[i]);
                assert(data.tables.entry(ephemeral, owner.keys[i]) is Some);
            }
        }
        assert(!keyed(owner, list)) by {
            if keyed(owner, list) {
                let i = choose|i: int|
                    0 <= i < owner.keys.len() && list.contains(#[trigger] owner.keys[i]);
                assert(data.tables.entry(ephemeral, owner.keys[i]) is Some);
            }
        }
    }
}

proof fn lemma_invoked_each_records<C: Component, S: SystemBody<C>>(
    data: DataModel<C>,
    system: SystemId,
    body: S,
    lists: Seq<Seq<u64>>,
    count: nat,
    outcome: Result<(DataModel<C>, bool), GoneComponent>,
    n: nat,
    other: Invocation,
)
    requires
        data.invoked_each(system, body, lists, count, outcome),
        outcome is Ok,
    ensures
        n < count ==> outcome->Ok_0.0.memo.contains_key(
            (Invocation { system, keys: keys_at(lists, n) }),
        ),
        data.memo.contains_key(other) ==> outcome->Ok_0.0.memo.contains_key(other),
        !outcome->Ok_0.1 ==> outcome->Ok_0.0 == data,
    decreases count,
{
    if count > 0 {
        let less = (count - 1) as nat;
        let before = choose|before: Result<(DataModel<C>, bool), GoneComponent>|
            data.invoked_each(system, body, lists, less, before) && #[trigger] invoked_then(
                before,
                system,
                body,
                keys_at(lists, less),
                outcome,
            );
        lemma_invoked_each_records(data, system, body, lists, less, before, n, other);
        let (middle, ran) = before->Ok_0;
        let step = choose|step: Result<(DataModel<C>, bool), GoneComponent>| #[trigger]
            middle.invoked(system, body, keys_at(lists, less), step) && outcome
                == crate::pipeline::run::continued(step, ran);
        assert(step is Ok);
    }
}

/// When a system has run, every combination of rows is on record, as run or as current.
/// What other systems have on record stays. A system that ran nothing leaves nothing new.
pub proof fn lemma_system_covers_its_rows<C: Component, S: SystemBody<C>>(
    data: DataModel<C>,
    system: SystemId,
    body: S,
    outcome: Result<(DataModel<C>, bool), GoneComponent>,
    n: nat,
    other: Invocation,
    kind: ComponentId,
    entity: Entity,
)
    requires
        data.system_run(system, body, outcome),
        outcome is Ok,
        n < combinations(row_lists(body.shapes(), data.tables)),
        seen(
            row_lists(body.shapes(), data.tables),
            (Invocation { system, keys: keys_at(row_lists(body.shapes(), data.tables), n) }),
        ),
    ensures
        outcome->Ok_0.0.memo.contains_key(
            (Invocation { system, keys: keys_at(row_lists(body.shapes(), data.tables), n) }),
        ),
        other.system != system && data.memo.contains_key(other)
            ==> outcome->Ok_0.0.memo.contains_key(other),
        !outcome->Ok_0.1 ==> (outcome->Ok_0.0.tables.entry(kind, entity) == data.tables.entry(
            kind,
            entity,
        ) || outcome->Ok_0.0.tables.entry(kind, entity) is None),
{
    let lists = row_lists(body.shapes(), data.tables);
    let looked = choose|looked: Result<(DataModel<C>, bool), GoneComponent>| #[trigger]
        data.invoked_each(system, body, lists, combinations(lists), looked) && outcome
            == match looked {
            Err(gone) => Err(gone),
            Ok((after, ran)) => Ok((after.dropped_each(unseen(after.order, system, lists)), ran)),
        };
    let (after, ran) = looked->Ok_0;
    let gone = unseen(after.order, system, lists);
    lemma_invoked_each_records(
        data,
        system,
        body,
        lists,
        combinations(lists),
        looked,
        n,
        other,
    );
    let own = Invocation { system, keys: keys_at(lists, n) };
    lemma_unseen_invocations::<C>(after.order, system, lists, own);
    lemma_unseen_invocations::<C>(after.order, system, lists, other);
    lemma_dropped_invocations(after, gone, own, kind, entity);
    lemma_dropped_invocations(after, gone, other, kind, entity);
}

/// Whether the order of a record lists what is on it, each invocation once.
pub open spec fn orderly<C: Component>(data: DataModel<C>) -> bool {
    &&& data.order.no_duplicates()
    &&& forall|owner: Invocation| #[trigger]
        data.order.contains(owner) <==> data.memo.contains_key(owner)
}

proof fn lemma_without_invocation(order: Seq<Invocation>, owner: Invocation, other: Invocation)
    requires
        order.no_duplicates(),
    ensures
        without_invocation(order, owner).contains(other) <==> order.contains(other) && other
            != owner,
        without_invocation(order, owner).no_duplicates(),
{
    let rest = without_invocation(order, owner);
    if order.contains(owner) {
        let at = order.index_of(owner);
        if rest.contains(other) {
            let i = choose|i: int| 0 <= i < rest.len() && rest[i] == other;
            if i < at {
                assert(order[i] == other);
            } else {
                assert(order[i + 1] == other);
            }
        }
        if order.contains(other) && other != owner {
            let i = choose|i: int| 0 <= i < order.len() && order[i] == other;
            if i < at {
                assert(rest[i] == other);
            } else {
                assert(rest[i - 1] == other);
            }
        }
    }
}

/// Recording a run and dropping one keep the order in step with the record.
pub proof fn lemma_record_stays_orderly<C: Component>(
    data: DataModel<C>,
    owner: Invocation,
    deps: Seq<crate::query::Dep>,
    ops: Seq<OpModel<C>>,
)
    requires
        orderly(data),
    ensures
        orderly(data.recorded(owner, deps, ops)),
        orderly(data.dropped(owner)),
        orderly(data.forgotten(owner)),
{
    let rest = without_invocation(data.order, owner);
    assert forall|other: Invocation| #[trigger] rest.contains(other) <==> data.order.contains(other)
        && other != owner by {
        lemma_without_invocation(data.order, owner, other);
    }
    lemma_without_invocation(data.order, owner, owner);
    let after = data.recorded(owner, deps, ops);
    assert forall|other: Invocation| #[trigger]
        after.order.contains(other) <==> after.memo.contains_key(other) by {
        lemma_pushed(rest, owner, other);
        assert(rest.contains(other) <==> data.order.contains(other) && other != owner);
    }
    assert(after.order.no_duplicates()) by {
        assert(!rest.contains(owner));
    }
}

proof fn lemma_invoked_each_stays_orderly<C: Component, S: SystemBody<C>>(
    data: DataModel<C>,
    system: SystemId,
    body: S,
    lists: Seq<Seq<u64>>,
    count: nat,
    outcome: Result<(DataModel<C>, bool), GoneComponent>,
)
    requires
        data.invoked_each(system, body, lists, count, outcome),
        outcome is Ok,
        orderly(data),
    ensures
        orderly(outcome->Ok_0.0),
    decreases count,
{
    if count > 0 {
        let less = (count - 1) as nat;
        let keys = keys_at(lists, less);
        let before = choose|before: Result<(DataModel<C>, bool), GoneComponent>|
            data.invoked_each(system, body, lists, less, before) && #[trigger] invoked_then(
                before,
                system,
                body,
                keys,
                outcome,
            );
        lemma_invoked_each_stays_orderly(data, system, body, lists, less, before);
        let (middle, ran) = before->Ok_0;
        let step = choose|step: Result<(DataModel<C>, bool), GoneComponent>| #[trigger]
            middle.invoked(system, body, keys, step) && outcome
                == crate::pipeline::run::continued(step, ran);
        let owner = Invocation { system, keys };
        let deps = crate::pipeline::run::observed(
            body.shapes(),
            middle.tables,
            keys,
            body.shapes().len(),
        )->Ok_0;
        if step->Ok_0.1 {
            let ops = choose|ops: Seq<OpModel<C>>| #[trigger]
                body.writes(middle.tables, keys, ops) && step == Ok::<
                    (DataModel<C>, bool),
                    GoneComponent,
                >((middle.recorded(owner, deps, ops), true));
            lemma_record_stays_orderly(middle, owner, deps, ops);
        }
    }
}

/// An invocation of the system whose rows are not there any more is off the record once
/// the system has run, and what it derived is gone.
pub proof fn lemma_stale_invocations_go<C: Component, S: SystemBody<C>>(
    data: DataModel<C>,
    system: SystemId,
    body: S,
    outcome: Result<(DataModel<C>, bool), GoneComponent>,
    owner: Invocation,
    kind: ComponentId,
    entity: Entity,
)
    requires
        data.system_run(system, body, outcome),
        outcome is Ok,
        orderly(data),
        data.memo.contains_key(owner),
        owner.system == system,
        !seen(row_lists(body.shapes(), data.tables), owner),
    ensures
        !outcome->Ok_0.0.memo.contains_key(owner),
        !derived_by(outcome->Ok_0.0.tables.entry(kind, entity), owner),
{
    let lists = row_lists(body.shapes(), data.tables);
    let looked = choose|looked: Result<(DataModel<C>, bool), GoneComponent>| #[trigger]
        data.invoked_each(system, body, lists, combinations(lists), looked) && outcome
            == match looked {
            Err(gone) => Err(gone),
            Ok((after, ran)) => Ok((after.dropped_each(unseen(after.order, system, lists)), ran)),
        };
    let (after, ran) = looked->Ok_0;
    let gone = unseen(after.order, system, lists);
    lemma_invoked_each_records(
        data,
        system,
        body,
        lists,
        combinations(lists),
        looked,
        0,
        owner,
    );
    lemma_invoked_each_stays_orderly(data, system, body, lists, combinations(lists), looked);
    assert(after.order.contains(owner));
    lemma_unseen_invocations::<C>(after.order, system, lists, owner);
    lemma_dropped_invocations(after, gone, owner, kind, entity);
    let i = choose|i: int| 0 <= i < gone.len() && gone[i] == owner;
    if derived_by(after.tables.entry(kind, entity), owner) {
        assert(derived_by(after.tables.entry(kind, entity), gone[i]));
    }
}

/// The callbacks of a system write one behind the other, in order.
pub proof fn lemma_callbacks_write_in_turn<C: Component, K: CompleteCallback<C>>(
    callbacks: Seq<K>,
    last: K,
    before: Seq<OpModel<C>>,
    ops: Seq<OpModel<C>>,
)
    ensures
        completions::<C, K>(Seq::empty(), ops) <==> ops.len() == 0,
        completions::<C, K>(callbacks, before) && last.writes(ops) ==> completions::<C, K>(
            callbacks.push(last),
            before + ops,
        ),
        completions::<C, K>(callbacks.push(last), ops) ==> exists|own: Seq<OpModel<C>>|
            #[trigger]
            last.writes(own) && own.len() <= ops.len() && completions::<C, K>(
                callbacks,
                ops.take(ops.len() - own.len()),
            ) && ops == ops.take(ops.len() - own.len()) + own,
{
    let all = callbacks.push(last);
    assert(all.drop_last() =~= callbacks);
    let both = before + ops;
    if completions::<C, K>(callbacks, before) && last.writes(ops) {
        assert(both.skip(both.len() - ops.len()) =~= ops);
        assert(both.take(both.len() - ops.len()) =~= before);
        assert(all.last().writes(ops));
    }
    if completions::<C, K>(all, ops) {
        let own = choose|own: Seq<OpModel<C>>| #[trigger]
            all.last().writes(own) && own.len() <= ops.len() && ops.skip(ops.len() - own.len())
                == own && completions::<C, K>(all.drop_last(), ops.take(ops.len() - own.len()));
        assert(ops =~= ops.take(ops.len() - own.len()) + ops.skip(ops.len() - own.len()));
        assert(last.writes(own));
    }
}

proof fn lemma_gone<C: Component>(
    shape: ShapeModel,
    tables: TablesModel<C>,
    entity: Entity,
    from: int,
)
    requires
        0 <= from,
    ensures
        shape.gone(tables, entity, from) is None <==> forall|i: int|
            from <= i < shape.kinds.len() ==> tables.entry(#[trigger] shape.kinds[i], entity)
                is Some,
        shape.gone(tables, entity, from) matches Some(gone) ==> gone.entity == entity.id()
            && shape.kinds.contains(gone.kind) && tables.entry(gone.kind, entity) is None,
    decreases shape.kinds.len() - from,
{
    if from < shape.kinds.len() {
        lemma_gone(shape, tables, entity, from + 1);
        assert(shape.kinds.contains(shape.kinds[from]));
    }
}

/// A row is refused as gone exactly when a component that it needs is missing, and the
/// refusal names one that is.
pub proof fn lemma_gone_components<C: Component>(
    shapes: Seq<ShapeModel>,
    tables: TablesModel<C>,
    keys: Seq<Entity>,
    from: int,
)
    requires
        0 <= from,
    ensures
        first_gone(shapes, tables, keys, from) is None <==> forall|q: int, i: int|
            #![trigger shapes[q].kinds[i]]
            from <= q < shapes.len() && 0 <= i < shapes[q].kinds.len() ==> tables.entry(
                shapes[q].kinds[i],
                keys[q],
            ) is Some,
        first_gone(shapes, tables, keys, from) matches Some(gone) ==> exists|q: int|
            from <= q < shapes.len() && (#[trigger] keys[q]).id() == gone.entity
                && shapes[q].kinds.contains(gone.kind) && tables.entry(gone.kind, keys[q]) is None,
    decreases shapes.len() - from,
{
    if from < shapes.len() {
        lemma_gone(shapes[from], tables, keys[from], 0);
        lemma_gone_components(shapes, tables, keys, from + 1);
        if shapes[from].gone(tables, keys[from], 0) is Some {
            let gone = shapes[from].gone(tables, keys[from], 0)->Some_0;
            let i = choose|i: int|
                0 <= i < shapes[from].kinds.len() && shapes[from].kinds[i] == gone.kind;
            assert(tables.entry(shapes[from].kinds[i], keys[from]) is None);
            assert(keys[from].id() == gone.entity);
        } else {
            assert forall|i: int| 0 <= i < shapes[from].kinds.len() implies tables.entry(
                #[trigger] shapes[from].kinds[i],
                keys[from],
            ) is Some by {}
            if first_gone(shapes, tables, keys, from) is Some {
                let gone = first_gone(shapes, tables, keys, from)->Some_0;
                let q = choose|q: int|
                    from + 1 <= q < shapes.len() && (#[trigger] keys[q]).id() == gone.entity
                        && shapes[q].kinds.contains(gone.kind) && tables.entry(gone.kind, keys[q])
                        is None;
                assert(keys[q].id() == gone.entity);
            }
        }
    }
}

/// Completion callbacks run exactly when the system ran for a row and has some; a system
/// that ran for none, or that has no callback, leaves what it left by itself.
pub proof fn lemma_callbacks_run_after_rows<
    C: Component,
    S: SystemBody<C>,
    K: CompleteCallback<C>,
>(
    data: DataModel<C>,
    system: SystemId,
    config: ConfigModel<S, K>,
    outcome: Result<(DataModel<C>, bool), GoneComponent>,
)
    requires
        data.entry_run(system, config, outcome),
    ensures
        exists|ran: Result<(DataModel<C>, bool), GoneComponent>| #[trigger]
            data.system_run(system, config.system, ran) && (outcome is Err <==> ran is Err) && (
            outcome is Ok ==> outcome->Ok_0.1 == ran->Ok_0.1 && outcome->Ok_0.0.memo
                == ran->Ok_0.0.memo && (!ran->Ok_0.1 || config.on_complete.len() == 0 ==> outcome
                == ran) && (ran->Ok_0.1 && config.on_complete.len() > 0 ==> exists|
                ops: Seq<OpModel<C>>,
            | #[trigger]
                completions::<C, K>(config.on_complete, ops) && outcome->Ok_0.0
                    == ran->Ok_0.0.completed(system, ops))),
{
    let ran = choose|ran: Result<(DataModel<C>, bool), GoneComponent>| #[trigger]
        data.system_run(system, config.system, ran) && match ran {
            Ok((after, true)) => if config.on_complete.len() > 0 {
                exists|ops: Seq<OpModel<C>>| #[trigger]
                    completions::<C, K>(config.on_complete, ops) && outcome == Ok::<
                        (DataModel<C>, bool),
                        GoneComponent,
                    >((after.completed(system, ops), true))
            } else {
                outcome == ran
            },
            _ => outcome == ran,
        };
    assert(data.system_run(system, config.system, ran));
    if ran is Ok && ran->Ok_0.1 && config.on_complete.len() > 0 {
        let after = ran->Ok_0.0;
        let ops = choose|ops: Seq<OpModel<C>>| #[trigger]
            completions::<C, K>(config.on_complete, ops) && outcome == Ok::<
                (DataModel<C>, bool),
                GoneComponent,
            >((after.completed(system, ops), true));
        assert(completions::<C, K>(config.on_complete, ops));
        assert(outcome->Ok_0.0 == after.completed(system, ops));
    }
}

/// A query over an entity that was inserted for it looks at that entity alone, and finds
/// it exactly when it has all that the row needs.
pub proof fn lemma_inserted_query_looks_at_its_entity<C: Component>(
    shape: ShapeModel,
    tables: TablesModel<C>,
    entity: Entity,
    other: Entity,
)
    ensures
        row_of(shape, tables, entity).contains(other) <==> other == entity && (shape.joined
            ==> entity.id() < tables.next_entity) && forall|i: int|
            0 <= i < shape.kinds.len() ==> tables.entry(#[trigger] shape.kinds[i], entity) is Some,
        row_of(shape, tables, entity).len() <= 1,
{
    crate::entity::lemma_entity_is_its_id(Entity::of(entity.id()), entity);
    assert(seq![entity][0] == entity);
    assert forall|i: int| 0 <= i < shape.kinds.len() implies tables.has(
        #[trigger] shape.kinds[i],
        entity,
    ) == (tables.entry(shape.kinds[i], entity) is Some) by {}
    if row_of(shape, tables, entity).contains(other) {
        assert(other == entity);
        assert forall|i: int| 0 <= i < shape.kinds.len() implies tables.entry(
            #[trigger] shape.kinds[i],
            entity,
        ) is Some by {
            assert(tables.has(shape.kinds[i], Entity::of(entity.id())));
        }
    }
    if other == entity && (shape.joined ==> entity.id() < tables.next_entity) && (forall|i: int|
        0 <= i < shape.kinds.len() ==> tables.entry(#[trigger] shape.kinds[i], entity) is Some) {
        assert(shape.has_all(tables, Entity::of(entity.id())));
        assert(row_of(shape, tables, entity)[0] == other);
    }
}

/// Whether every record of `after` was there before.
spec fn no_new_records<C: Component>(before: DataModel<C>, after: DataModel<C>) -> bool {
    forall|owner: Invocation| #[trigger]
        after.memo.contains_key(owner) ==> before.memo.contains_key(owner)
}

proof fn lemma_receding_forgets<C: Component>(data: DataModel<C>, frontier: Set<u64>)
    ensures
        no_new_records(data, data.receded(frontier)),
        orderly(data) ==> forall|owner: Invocation| #[trigger]
            data.receded(frontier).memo.contains_key(owner) ==> !keyed(owner, listing(frontier)),
{
    let list = listing(frontier);
    let touched = touched_in(data.order, list);
    let after = data.receded(frontier);
    assert forall|owner: Invocation| #[trigger]
        after.memo.contains_key(owner) implies data.memo.contains_key(owner) && (orderly(data)
        ==> !keyed(owner, list)) by {
        lemma_forgotten_invocations(data, touched, owner);
        lemma_touched_invocations(data.order, list, owner);
        if orderly(data) {
            assert(data.order.contains(owner) <==> data.memo.contains_key(owner));
        }
    }
}

proof fn lemma_unravelling_forgets<C: Component>(
    data: DataModel<C>,
    frontier: Set<u64>,
    done: Set<u64>,
)
    ensures
        no_new_records(data, data.unravelled(frontier, done)),
    decreases crate::pipeline::cleanup::ids_left(done),
{
    if !frontier.is_empty() {
        lemma_receding_forgets(data, frontier);
        let next = data.hit(frontier).difference(done);
        if !next.is_empty() {
            crate::pipeline::cleanup::lemma_fewer_left(done, next);
            lemma_unravelling_forgets(data.receded(frontier), next, done.union(next));
        }
    }
}

/// After cleaning up, no invocation is on record that had an entity as a row which only
/// lived for a query; and none is that was not before.
pub proof fn lemma_cleanup_forgets_its_rows<C: Component>(
    data: DataModel<C>,
    ephemeral: ComponentId,
    owner: Invocation,
    at: int,
)
    requires
        orderly(data),
        0 <= at < owner.keys.len(),
        data.tables.entry(ephemeral, owner.keys[at]) is Some,
    ensures
        !data.cleaned(ephemeral).memo.contains_key(owner),
{
    let frontier = data.tables.table(ephemeral).dom();
    let list = listing(frontier);
    let quiet = data.unravelled(frontier, Set::empty());
    assert(frontier.contains(owner.keys[at].id()));
    lemma_listing(frontier, owner.keys[at]);
    assert(keyed(owner, list));
    lemma_receding_forgets(data, frontier);
    let receded = data.receded(frontier);
    assert(!receded.memo.contains_key(owner));
    let next = data.hit(frontier).difference(Set::empty());
    if !next.is_empty() {
        crate::pipeline::cleanup::lemma_fewer_left(Set::empty(), next);
        lemma_unravelling_forgets(receded, next, Set::empty().union(next));
    }
    assert(!quiet.memo.contains_key(owner));
    let entities = listing(quiet.tables.table(ephemeral).dom());
    let cleared = quiet.cleared_each(entities);
    lemma_cleared_each(quiet, entities, ephemeral, owner.keys[at]);
    let gone = touched_in(cleared.order, entities);
    lemma_forgotten_invocations(cleared, gone, owner);
    lemma_dropped_invocations(
        cleared.without_touched(entities),
        quiet.makers_each(entities),
        owner,
        ephemeral,
        owner.keys[at],
    );
}

/// The entities of a query are its rows, ascending; the entities with a component are
/// those that carry it.
pub proof fn lemma_rows_and_carriers<C: Component>(
    shape: ShapeModel,
    tables: TablesModel<C>,
    kind: ComponentId,
    entity: Entity,
)
    ensures
        row_entities(shape, tables).contains(entity) <==> shape.admits(tables, entity.id()),
        tables.entities_with(kind).contains(entity.id()) <==> tables.entry(kind, entity) is Some,
{
    let admitted = Set::new(|id: u64| shape.admits(tables, id));
    let rows = sorted_keys(admitted);
    crate::model::lemma_sorted_keys_list(admitted);
    let all = row_entities(shape, tables);
    if all.contains(entity) {
        let i = choose|i: int| 0 <= i < all.len() && all[i] == entity;
        assert(rows[i] == entity.id());
        assert(rows.to_set().contains(entity.id()));
    }
    if shape.admits(tables, entity.id()) {
        assert(rows.to_set().contains(entity.id()));
        let i = choose|i: int| 0 <= i < rows.len() && rows[i] == entity.id();
        crate::entity::lemma_entity_is_its_id(all[i], entity);
    }
    let ids = tables.table(kind).dom();
    crate::model::lemma_sorted_keys_list(ids);
    let listed = sorted_keys(ids);
    assert(listed.to_set().contains(entity.id()) <==> listed.contains(entity.id()));
}

/// What a body adds to a buffer is what stands behind what was there.
pub proof fn lemma_added_operations<C: Component>(
    before: Seq<OpModel<C>>,
    more: Seq<OpModel<C>>,
    after: Seq<OpModel<C>>,
)
    ensures
        added(before, before + more) == Some(more),
        added(before, after) matches Some(ops) ==> after == before + ops,
{
    let all = before + more;
    assert(all.skip(before.len() as int) =~= more);
    assert(all.take(before.len() as int) =~= before);
    assert(before.is_prefix_of(all));
    if before.is_prefix_of(after) {
        assert(after =~= before + after.skip(before.len() as int));
    }
}

/// Base components that a caller inserts belong to nobody; what other entities carry and
/// what is on record stay as they are.
pub proof fn lemma_callers_insert_base_facts<C: Component>(
    data: DataModel<C>,
    entity: Entity,
    values: Seq<C::Model>,
    kind: ComponentId,
    other: Entity,
)
    ensures
        data.with_base(entity, values).memo == data.memo,
        data.with_base(entity, values).order == data.order,
        other.id() != entity.id() ==> data.with_base(entity, values).tables.entry(kind, other)
            == data.tables.entry(kind, other),
        (exists|i: int| 0 <= i < values.len() && C::kind(#[trigger] values[i]) == kind) ==> (
        data.with_base(entity, values).tables.entry(kind, entity) matches Some(entry)
            && entry.origin == Origin::Base && entry.owner is None),
    decreases values.len(),
{
    if values.len() > 0 {
        let rest = values.drop_last();
        let last = values.last();
        lemma_callers_insert_base_facts(data, entity, rest, kind, other);
        let before = data.with_base(entity, rest).tables;
        lemma_insert_is_read_back(before, entity, last, Origin::Base, None, kind, other);
        lemma_insert_is_read_back(before, entity, last, Origin::Base, None, kind, entity);
        if exists|i: int| 0 <= i < values.len() && C::kind(#[trigger] values[i]) == kind {
            let i = choose|i: int| 0 <= i < values.len() && C::kind(#[trigger] values[i]) == kind;
            if i < rest.len() {
                assert(C::kind(rest[i]) == kind);
            }
        }
    }
}

} // verus!
