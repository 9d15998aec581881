//! What holds of a database across calls.

use crate::component::{Component, ComponentId};
use crate::entity::Entity;
use crate::invocation::{Invocation, SystemId};
use crate::model::Origin;
use crate::pipeline::commands::OpModel;
use crate::pipeline::config::{CompleteCallback, ConfigModel};
use crate::pipeline::rows::GoneComponent;
use crate::pipeline::db::{after_of, completions, ran_then, DbError, ROUND_LIMIT};
use crate::pipeline::order::{system_order_of, OrderError};
use crate::pipeline::run::{
    combinations, continued, invoked_then, keys_at, observed, row_lists, unseen, DataModel,
    SystemBody,
};
use crate::pipeline::tables::TablesModel;
use crate::query::Dep;
use vstd::prelude::*;

verus! {

/// Inserting a value with the fingerprint that is stored moves no revision: who
/// observed the component observes the same again.
pub proof fn lemma_equal_fingerprint_keeps_revision<C: Component>(
    tables: TablesModel<C>,
    entity: Entity,
    value: C::Model,
    origin: Origin,
    owner: Option<Invocation>,
)
    requires
        C::tracks(C::kind(value)),
        tables.repeats(entity, value),
    ensures
        tables.put(entity, value, origin, owner).revision == tables.revision,
        tables.put(entity, value, origin, owner).entry(C::kind(value), entity)->0.revision
            == tables.entry(C::kind(value), entity)->0.revision,
{
}

/// An insert touches no other component and no other entity.
pub proof fn lemma_insert_is_local<C: Component>(
    tables: TablesModel<C>,
    entity: Entity,
    value: C::Model,
    origin: Origin,
    owner: Option<Invocation>,
    kind: ComponentId,
    other: Entity,
)
    requires
        kind != C::kind(value) || other.id() != entity.id(),
    ensures
        tables.put(entity, value, origin, owner).entry(kind, other) == tables.entry(kind, other),
        tables.put(entity, value, origin, owner).revision >= tables.revision,
{
}

/// An invocation that ran does not run again while it observes the same.
pub proof fn lemma_valid_invocation_is_skipped<C: Component, S: SystemBody<C>>(
    data: DataModel<C>,
    system: SystemId,
    body: S,
    keys: Seq<Entity>,
    deps: Seq<Dep>,
    ops: Seq<OpModel<C>>,
    outcome: Result<(DataModel<C>, bool), GoneComponent>,
)
    requires
        observed(
            body.shapes(),
            data.recorded(Invocation { system, keys }, deps, ops).tables,
            keys,
            body.shapes().len(),
        ) == Ok::<Seq<Dep>, GoneComponent>(deps),
    ensures
        data.recorded(Invocation { system, keys }, deps, ops).invoked(system, body, keys, outcome)
            <==> outcome == Ok::<(DataModel<C>, bool), GoneComponent>(
            (data.recorded(Invocation { system, keys }, deps, ops), false),
        ),
{
}

/// Once the systems have come to rest, the last round ran nothing.
pub proof fn lemma_last_round_is_quiet<C: Component, S: SystemBody<C>, K: CompleteCallback<C>>(
    data: DataModel<C>,
    systems: Seq<ConfigModel<S, K>>,
    order: Seq<usize>,
    rounds: nat,
    settled: DataModel<C>,
)
    requires
        data.settled(systems, order, rounds, Ok(settled)),
    ensures
        exists|before: DataModel<C>| #[trigger]
            before.round(systems, order, Ok((settled, false))),
    decreases rounds,
{
    let outcome: Result<DataModel<C>, DbError> = Ok(settled);
    let round = choose|round: Result<(DataModel<C>, bool), GoneComponent>| #[trigger]
        data.round(systems, order, round) && match round {
            Err(gone) => outcome == Err::<DataModel<C>, DbError>(DbError::Gone(gone)),
            Ok((after, true)) => after.settled(systems, order, (rounds - 1) as nat, outcome),
            Ok((after, false)) => outcome == Ok::<DataModel<C>, DbError>(after),
        };
    match round {
        Ok((after, true)) => {
            lemma_last_round_is_quiet(after, systems, order, (rounds - 1) as nat, settled);
        },
        Ok((after, false)) => {
            assert(data.round(systems, order, Ok((settled, false))));
        },
        Err(_) => {},
    }
}

proof fn lemma_quiet_looks_are_settled<C: Component, S: SystemBody<C>>(
    data: DataModel<C>,
    system: SystemId,
    body: S,
    lists: Seq<Seq<u64>>,
    count: nat,
    after: DataModel<C>,
    outcome: Result<(DataModel<C>, bool), GoneComponent>,
)
    requires
        data.invoked_each(system, body, lists, count, Ok((after, false))),
        data.invoked_each(system, body, lists, count, outcome),
    ensures
        outcome == Ok::<(DataModel<C>, bool), GoneComponent>((after, false)),
    decreases count,
{
    if count > 0 {
        let fewer = (count - 1) as nat;
        let keys = keys_at(lists, fewer);
        let quiet: Result<(DataModel<C>, bool), GoneComponent> = Ok((after, false));
        let before = choose|before: Result<(DataModel<C>, bool), GoneComponent>|
            data.invoked_each(system, body, lists, fewer, before) && #[trigger] invoked_then(
                before,
                system,
                body,
                keys,
                quiet,
            );
        let other = choose|other: Result<(DataModel<C>, bool), GoneComponent>|
            data.invoked_each(system, body, lists, fewer, other) && #[trigger] invoked_then(
                other,
                system,
                body,
                keys,
                outcome,
            );
        let (middle, ran) = before->Ok_0;
        let step = choose|step: Result<(DataModel<C>, bool), GoneComponent>| #[trigger]
            middle.invoked(system, body, keys, step) && quiet == continued(step, ran);
        assert(!ran);
        lemma_quiet_looks_are_settled(data, system, body, lists, fewer, middle, other);
        let again = choose|again: Result<(DataModel<C>, bool), GoneComponent>| #[trigger]
            middle.invoked(system, body, keys, again) && outcome == continued(again, false);
        assert(step == quiet);
        assert(again == step);
    }
}

proof fn lemma_quiet_entry_is_settled<C: Component, S: SystemBody<C>, K: CompleteCallback<C>>(
    data: DataModel<C>,
    system: SystemId,
    config: ConfigModel<S, K>,
    after: DataModel<C>,
    outcome: Result<(DataModel<C>, bool), GoneComponent>,
)
    requires
        data.entry_run(system, config, Ok((after, false))),
        data.entry_run(system, config, outcome),
    ensures
        outcome == Ok::<(DataModel<C>, bool), GoneComponent>((after, false)),
{
    let quiet: Result<(DataModel<C>, bool), GoneComponent> = Ok((after, false));
    let lists = row_lists(config.system.shapes(), data.tables);
    let count = combinations(lists);
    assert(data.system_run(system, config.system, quiet));
    let looked = choose|looked: Result<(DataModel<C>, bool), GoneComponent>| #[trigger]
        data.invoked_each(system, config.system, lists, count, looked) && quiet == match looked {
            Err(gone) => Err(gone),
            Ok((after, ran)) => Ok(
                (after.dropped_each(unseen(after.order, system, lists)), ran),
            ),
        };
    let ran = choose|ran: Result<(DataModel<C>, bool), GoneComponent>| #[trigger]
        data.system_run(system, config.system, ran) && match ran {
            Ok((after, true)) => if config.on_complete.len() > 0 {
                exists|ops: Seq<OpModel<C>>| #[trigger]
                    completions::<C, K>(config.on_complete, ops) && outcome == Ok::<
                        (DataModel<C>, bool),
                        GoneComponent,
                    >((after.completed(system, ops), true))
            } else {
                outcome == ran
            },
            _ => outcome == ran,
        };
    let other = choose|other: Result<(DataModel<C>, bool), GoneComponent>| #[trigger]
        data.invoked_each(system, config.system, lists, count, other) && ran == match other {
            Err(gone) => Err(gone),
            Ok((after, ran)) => Ok(
                (after.dropped_each(unseen(after.order, system, lists)), ran),
            ),
        };
    lemma_quiet_looks_are_settled(
        data,
        system,
        config.system,
        lists,
        count,
        looked->Ok_0.0,
        other,
    );
}

proof fn lemma_quiet_round_is_settled<C: Component, S: SystemBody<C>, K: CompleteCallback<C>>(
    data: DataModel<C>,
    systems: Seq<ConfigModel<S, K>>,
    order: Seq<usize>,
    after: DataModel<C>,
    outcome: Result<(DataModel<C>, bool), GoneComponent>,
)
    requires
        data.round(systems, order, Ok((after, false))),
        data.round(systems, order, outcome),
    ensures
        outcome == Ok::<(DataModel<C>, bool), GoneComponent>((after, false)),
    decreases order.len(),
{
    if order.len() > 0 {
        let rest = order.drop_last();
        let system = SystemId(order.last());
        let config = systems[order.last() as int];
        let quiet: Result<(DataModel<C>, bool), GoneComponent> = Ok((after, false));
        let before = choose|before: Result<(DataModel<C>, bool), GoneComponent>|
            data.round(systems, rest, before) && #[trigger] ran_then(
                before,
                system,
                config,
                quiet,
            );
        let other = choose|other: Result<(DataModel<C>, bool), GoneComponent>|
            data.round(systems, rest, other) && #[trigger] ran_then(
                other,
                system,
                config,
                outcome,
            );
        let (middle, progress) = before->Ok_0;
        let step = choose|step: Result<(DataModel<C>, bool), GoneComponent>| #[trigger]
            middle.entry_run(system, config, step) && quiet == continued(step, progress);
        assert(!progress);
        lemma_quiet_round_is_settled(data, systems, rest, middle, other);
        let again = choose|again: Result<(DataModel<C>, bool), GoneComponent>| #[trigger]
            middle.entry_run(system, config, again) && outcome == continued(again, false);
        assert(step == quiet);
        lemma_quiet_entry_is_settled(middle, system, config, after, again);
    }
}

/// A database at rest stays at rest: running its systems again runs nothing and
/// changes nothing.
pub proof fn lemma_rest_is_stable<C: Component, S: SystemBody<C>, K: CompleteCallback<C>>(
    data: DataModel<C>,
    systems: Seq<ConfigModel<S, K>>,
    order: Seq<usize>,
    outcome: Result<DataModel<C>, DbError>,
)
    requires
        system_order_of(after_of(systems)) == Ok::<Seq<usize>, OrderError>(order),
        data.round(systems, order, Ok((data, false))),
    ensures
        data.materialized(systems, outcome) <==> outcome == Ok::<DataModel<C>, DbError>(data),
{
    let quiet: Result<(DataModel<C>, bool), GoneComponent> = Ok((data, false));
    assert(data.round(systems, order, quiet));
    if data.materialized(systems, outcome) {
        let round = choose|round: Result<(DataModel<C>, bool), GoneComponent>| #[trigger]
            data.round(systems, order, round) && match round {
                Err(gone) => outcome == Err::<DataModel<C>, DbError>(DbError::Gone(gone)),
                Ok((after, true)) => after.settled(
                    systems,
                    order,
                    (ROUND_LIMIT - 1) as nat,
                    outcome,
                ),
                Ok((after, false)) => outcome == Ok::<DataModel<C>, DbError>(after),
            };
        lemma_quiet_round_is_settled(data, systems, order, data, round);
    }
}

} // verus!
