//! Which systems are planned, what runs next to what, and when it ends.

use crate::access::{lists_clash, rows_written, Access, AccessKind};
use crate::binding::{
    binding_error, first_local_error, first_unbound, first_unprovided, join_keys, providers,
    system_interest, system_outputs, system_views,
};
use crate::component::{ComponentId, RelationshipTarget};
use crate::entity::Entity;
use crate::evaluation::{
    accesses, batches_of, without_run, writers, writes, Admission, BatchModel, BudgetError,
    CommitLimit, DriverModel, DriverStep, PlanModel, PREEMPTION_BUDGET,
};
use crate::invocation::{Invocation, SystemId};
use crate::join_laws::{asks_key, asks_membership};
use crate::memo::{planned_states, to_run, MemoModel, PlannedModel};
use crate::model::{outputs, sorted_keys, Cell, WorldModel};
use crate::param::{system_states, JoinError, ParamModel};
use crate::query::{PartMode, QueryModel, RowFilter};
use crate::registry::{dirty_ids, entity_ids, interest_mark, SystemModel};
use crate::seq_laws::{lemma_joined, lemma_last, lemma_pushed};
use crate::state::settle::{hook_due, hooks_due, settle_plan};
use crate::state::wave::{after_wave, in_wave, wave_batches, wave_due, wave_share};
use crate::state::StateModel;
use crate::system::{merged, permitted, Phase, RunModel, Wrapper};
use crate::world::lemma_as_entities;
use vstd::prelude::*;

verus! {

proof fn lemma_interest_mark<C: RelationshipTarget>(
    world: WorldModel<C>,
    kinds: Seq<ComponentId>,
    mark: u64,
)
    ensures
        interest_mark(world, kinds) > mark <==> exists|i: int|
            0 <= i < kinds.len() && world.column(#[trigger] kinds[i]).watermark > mark,
    decreases kinds.len(),
{
    if kinds.len() > 0 {
        let rest = kinds.drop_last();
        lemma_interest_mark(world, rest, mark);
        if interest_mark(world, rest) > mark {
            let i = choose|i: int|
                0 <= i < rest.len() && world.column(#[trigger] rest[i]).watermark > mark;
            assert(world.column(kinds[i]).watermark > mark);
        }
        if exists|i: int|
            0 <= i < kinds.len() && world.column(#[trigger] kinds[i]).watermark > mark {
            let i = choose|i: int|
                0 <= i < kinds.len() && world.column(#[trigger] kinds[i]).watermark > mark;
            if i < rest.len() {
                assert(world.column(rest[i]).watermark > mark);
            }
        }
        if world.column(kinds.last()).watermark > mark {
            assert(world.column(kinds[kinds.len() - 1]).watermark > mark);
        }
    }
}

/// A system is planned exactly when it bounds no interest, or a store of its interest
/// moved past the mark of its last plan. Once it was marked on a world it is not planned
/// on that world again; nor is it as long as no store of its interest moves.
pub proof fn lemma_planned_when_a_store_moved<C: RelationshipTarget>(
    system: SystemModel,
    world: WorldModel<C>,
    later: WorldModel<C>,
)
    ensures
        system.must_plan(world) <==> (system.interest matches Some(kinds) ==> exists|i: int|
            0 <= i < kinds.len() && world.column(#[trigger] kinds[i]).watermark > system.mark),
        system.interest is Some ==> !system.marked(world).must_plan(world),
        system.interest matches Some(kinds) && (forall|i: int|
            0 <= i < kinds.len() ==> later.column(#[trigger] kinds[i]).watermark <= world.column(
                kinds[i],
            ).watermark) ==> !system.marked(world).must_plan(later),
        system.interest matches Some(kinds) && (exists|i: int|
            0 <= i < kinds.len() && world.column(#[trigger] kinds[i]).watermark > 0)
            ==> system.unplanned().must_plan(world) && forall|keys: Seq<Entity>| #[trigger]
            system.forced_on(keys).must_plan(world),
{
    if let Some(kinds) = system.interest {
        lemma_interest_mark(world, kinds, system.mark);
        lemma_interest_mark(world, kinds, 0);
        let mark = interest_mark(world, kinds);
        lemma_interest_mark(world, kinds, mark);
        if forall|i: int|
            0 <= i < kinds.len() ==> later.column(#[trigger] kinds[i]).watermark <= world.column(
                kinds[i],
            ).watermark {
            lemma_interest_mark(later, kinds, mark);
            if interest_mark(later, kinds) > mark {
                let i = choose|i: int|
                    0 <= i < kinds.len() && later.column(#[trigger] kinds[i]).watermark > mark;
                assert(world.column(kinds[i]).watermark > mark);
            }
        }
        assert forall|keys: Seq<Entity>| #[trigger]
            system.forced_on(keys).must_plan(world) == (interest_mark(world, kinds) > 0) by {}
    }
}

/// A delta plan starts from exactly the rows that are due again and those written in a
/// store of interest since the last plan. A system that has no such plan to continue is
/// planned in full, and so is one that is due again as a whole.
pub proof fn lemma_delta_plan_starts_from_what_moved(
    system: SystemModel,
    log: Seq<Cell>,
    epoch: u64,
    entity: Entity,
)
    ensures
        system.hint(log, epoch) is Some <==> system.delta && system.epoch == epoch,
        system.hint(log, epoch) matches Some(rows) ==> (rows.contains(entity) <==> (
        system.forced.contains(entity) || exists|i: int|
            system.position <= i < log.len() && (#[trigger] log[i]).1 == entity
                && system.interest->0.contains(log[i].0))),
        epoch != u64::MAX ==> system.unplanned().hint(log, epoch) is None,
        epoch != u64::MAX ==> system.forced_on(Seq::empty()).hint(log, epoch) is None,
{
    let rest = system.uncovered(log);
    let kinds = system.interest->0;
    let dirty = dirty_ids(rest, kinds).union(entity_ids(system.forced));
    crate::model::lemma_sorted_keys_list(dirty);
    let raw = sorted_keys(dirty);
    lemma_as_entities(raw, entity);
    assert(raw.to_set().contains(entity.id()) <==> raw.contains(entity.id()));
    crate::entity::lemma_entity_is_its_id(Entity::of(entity.id()), entity);
    let moved = exists|i: int|
        system.position <= i < log.len() && (#[trigger] log[i]).1 == entity && kinds.contains(
            log[i].0,
        );
    if dirty_ids(rest, kinds).contains(entity.id()) {
        let i = choose|i: int|
            0 <= i < rest.len() && (#[trigger] rest[i]).1.id() == entity.id() && kinds.contains(
                rest[i].0,
            );
        crate::entity::lemma_entity_is_its_id(rest[i].1, entity);
        assert(log[system.position + i].1 == entity);
    }
    if moved {
        let i = choose|i: int|
            system.position <= i < log.len() && (#[trigger] log[i]).1 == entity && kinds.contains(
                log[i].0,
            );
        assert(rest[i - system.position].1.id() == entity.id());
    }
}

/// Once planned, a system starts its next delta plan of that epoch from what is written
/// afterwards alone; rows that are due again are added to it.
pub proof fn lemma_next_delta_plan(
    system: SystemModel,
    log: Seq<Cell>,
    more: Seq<Cell>,
    epoch: u64,
    keys: Seq<Entity>,
    entity: Entity,
)
    requires
        system.delta,
        log.len() <= usize::MAX,
    ensures
        ({
            let planned = system.planned(log.len(), epoch);
            let wrote = exists|i: int|
                0 <= i < more.len() && (#[trigger] more[i]).1 == entity
                    && system.interest->0.contains(more[i].0);
            &&& planned.hint(log + more, epoch) matches Some(rows) && (rows.contains(entity)
                <==> wrote)
            &&& keys.len() > 0 ==> (planned.forced_on(keys).hint(log + more, epoch) matches Some(
                rows,
            ) && (rows.contains(entity) <==> wrote || keys.contains(entity)))
        }),
{
    let planned = system.planned(log.len(), epoch);
    let all = log + more;
    let forced = planned.forced_on(keys);
    lemma_delta_plan_starts_from_what_moved(planned, all, epoch, entity);
    lemma_delta_plan_starts_from_what_moved(forced, all, epoch, entity);
    assert(Seq::<Entity>::empty() + keys =~= keys);
    let wrote = exists|i: int|
        0 <= i < more.len() && (#[trigger] more[i]).1 == entity && system.interest->0.contains(
            more[i].0,
        );
    if wrote {
        let i = choose|i: int|
            0 <= i < more.len() && (#[trigger] more[i]).1 == entity && system.interest->0.contains(
                more[i].0,
            );
        assert(all[log.len() + i].1 == entity);
    }
    if exists|i: int|
        log.len() <= i < all.len() && (#[trigger] all[i]).1 == entity && system.interest->0.contains(
            all[i].0,
        ) {
        let i = choose|i: int|
            log.len() <= i < all.len() && (#[trigger] all[i]).1 == entity
                && system.interest->0.contains(all[i].0);
        assert(more[i - log.len()].1 == entity);
    }
}

/// Invocations of a system with a start or completion hook run as one batch, in order
/// and under the name of the system; any other invocation runs by itself under its own
/// name. A batch touches what its invocations touch. Nothing to run is no batch.
pub proof fn lemma_batches_hold_the_plan(
    system: SystemModel,
    plan: Seq<PlannedModel>,
    planned: PlannedModel,
    access: Access,
)
    ensures
        plan.len() == 0 ==> batches_of(system, plan).len() == 0,
        system.wrappers.contains(Wrapper::Start) || system.wrappers.contains(Wrapper::Complete) ==> (
        plan.len() > 0 ==> {
            let batches = batches_of(system, plan);
            &&& batches.len() == 1
            &&& batches[0].invocations == plan
            &&& batches[0].owner.system == system.id
            &&& batches[0].owner.keys.len() == 0
            &&& batches[0].access.contains(access) <==> exists|i: int|
                0 <= i < plan.len() && (#[trigger] plan[i]).access.contains(access)
        }),
        !system.wrappers.contains(Wrapper::Start) && !system.wrappers.contains(Wrapper::Complete)
            ==> {
            let batches = batches_of(system, plan);
            &&& batches.len() == plan.len()
            &&& forall|i: int|
                0 <= i < plan.len() ==> (#[trigger] batches[i]).invocations.len() == 1
                    && batches[i].invocations[0] == plan[i] && batches[i].owner == plan[i].owner
                    && batches[i].access == plan[i].access
        },
        plan.contains(planned) <==> exists|i: int|
            0 <= i < batches_of(system, plan).len() && (#[trigger] batches_of(
                system,
                plan,
            )[i]).invocations.contains(planned),
{
    let batches = batches_of(system, plan);
    lemma_accesses(plan, access);
    if plan.contains(planned) {
        let i = choose|i: int| 0 <= i < plan.len() && plan[i] == planned;
        if system.batched() {
            assert(batches[0].invocations.contains(planned));
        } else {
            assert(batches[i].invocations[0] == planned);
            assert(batches[i].invocations.contains(planned));
        }
    }
    if exists|i: int|
        0 <= i < batches.len() && (#[trigger] batches[i]).invocations.contains(planned) {
        let i = choose|i: int|
            0 <= i < batches.len() && (#[trigger] batches[i]).invocations.contains(planned);
        if !system.batched() {
            assert(batches[i].invocations =~= seq![plan[i]]);
            assert(plan[i] == planned);
        }
    }
}

proof fn lemma_accesses(plan: Seq<PlannedModel>, access: Access)
    ensures
        accesses(plan).contains(access) <==> exists|i: int|
            0 <= i < plan.len() && (#[trigger] plan[i]).access.contains(access),
    decreases plan.len(),
{
    if plan.len() > 0 {
        let rest = plan.drop_last();
        lemma_accesses(rest, access);
        lemma_joined(accesses(rest), plan.last().access, access);
        if exists|i: int| 0 <= i < plan.len() && (#[trigger] plan[i]).access.contains(access) {
            let i = choose|i: int|
                0 <= i < plan.len() && (#[trigger] plan[i]).access.contains(access);
            if i < rest.len() {
                assert(rest[i].access.contains(access));
            }
        }
        if exists|i: int| 0 <= i < rest.len() && (#[trigger] rest[i]).access.contains(access) {
            let i = choose|i: int|
                0 <= i < rest.len() && (#[trigger] rest[i]).access.contains(access);
            assert(plan[i].access.contains(access));
        }
        if plan.last().access.contains(access) {
            assert(plan[plan.len() - 1].access.contains(access));
        }
    }
}

/// Whether system `at` is planned in a wave of `phase`: it is one of that phase, and a
/// store of its interest moved, or it bounds none.
pub open spec fn takes_part<C: RelationshipTarget>(
    system: SystemModel,
    phase: Phase,
    world: WorldModel<C>,
) -> bool {
    &&& system.phase == phase
    &&& system.interest matches Some(kinds) ==> exists|i: int|
        0 <= i < kinds.len() && world.column(#[trigger] kinds[i]).watermark > system.mark
}

/// A wave is due exactly when some system takes part in it. It holds the batches of
/// those systems, on the rows each has to look at, and nothing else.
pub proof fn lemma_wave_holds_what_takes_part<C: RelationshipTarget>(
    systems: Seq<SystemModel>,
    phase: Phase,
    world: WorldModel<C>,
    memo: Map<Invocation, MemoModel>,
    log: Seq<Cell>,
    epoch: u64,
    count: nat,
    batch: BatchModel,
)
    requires
        count <= systems.len(),
    ensures
        wave_due(systems, phase, world) <==> exists|i: int|
            0 <= i < systems.len() && takes_part(#[trigger] systems[i], phase, world),
        wave_batches(systems, phase, world, memo, log, epoch, count) is Ok <==> forall|i: int|
            0 <= i < count && takes_part(#[trigger] systems[i], phase, world) ==> planned_states(
                world,
                systems[i].params,
                systems[i].hint(log, epoch),
            ) is Ok,
        wave_batches(systems, phase, world, memo, log, epoch, count) matches Ok(batches) ==> (
        batches.contains(batch) <==> exists|i: int|
            0 <= i < count && takes_part(#[trigger] systems[i], phase, world) && batches_of(
                systems[i],
                to_run(
                    systems[i].id,
                    world,
                    memo,
                    systems[i].params,
                    planned_states(world, systems[i].params, systems[i].hint(log, epoch))->Ok_0,
                ),
            ).contains(batch)),
    decreases count,
{
    assert forall|i: int| 0 <= i < systems.len() implies takes_part(
        #[trigger] systems[i],
        phase,
        world,
    ) == in_wave(systems[i], phase, world) by {
        lemma_planned_when_a_store_moved(systems[i], world, world);
    }
    if wave_due(systems, phase, world) {
        let i = choose|i: int|
            0 <= i < systems.len() && (#[trigger] systems[i]).phase == phase
                && systems[i].must_plan(world);
        assert(takes_part(systems[i], phase, world));
    }
    if count > 0 {
        let less = (count - 1) as nat;
        let last = systems[count - 1];
        lemma_wave_holds_what_takes_part(systems, phase, world, memo, log, epoch, less, batch);
        let before = wave_batches(systems, phase, world, memo, log, epoch, less);
        let share = wave_share(last, phase, world, memo, log, epoch);
        let all = wave_batches(systems, phase, world, memo, log, epoch, count);
        assert(takes_part(systems[count - 1], phase, world) == in_wave(last, phase, world));
        if before is Ok && share is Ok {
            lemma_joined(before->Ok_0, share->Ok_0, batch);
            if all->Ok_0.contains(batch) && !before->Ok_0.contains(batch) {
                assert(takes_part(systems[count - 1], phase, world));
            }
        }
    }
}

/// A system that took part in a wave is up to date with it: nothing it looks at moved
/// past its mark, what was written so far is covered, and no row of it is due again. A
/// system that did not take part is left alone.
pub proof fn lemma_wave_brings_up_to_date<C: RelationshipTarget>(
    system: SystemModel,
    phase: Phase,
    world: WorldModel<C>,
    log: Seq<Cell>,
    epoch: u64,
)
    requires
        log.len() <= usize::MAX,
    ensures
        ({
            let after = after_wave(system, phase, world, log, epoch);
            &&& takes_part(system, phase, world) ==> {
                &&& system.interest is Some ==> !after.must_plan(world)
                &&& after.forced.len() == 0
                &&& system.delta ==> after.position == log.len() && after.epoch == epoch
                &&& after.id == system.id
                &&& after.params == system.params
                &&& after.phase == system.phase
                &&& after.wrappers == system.wrappers
                &&& after.interest == system.interest
                &&& after.outputs == system.outputs
            }
            &&& !takes_part(system, phase, world) ==> after == system
        }),
{
    lemma_planned_when_a_store_moved(system, world, world);
}

/// The settled hooks that are due at rest are those of the systems whose outermost hook
/// is one, outside the settle phase, that have rows, nothing left to run, and nothing
/// that their hook derived standing.
pub proof fn lemma_settled_hooks_that_are_due<C: RelationshipTarget>(
    state: StateModel<C>,
    snapshot: WorldModel<C>,
    memo: Map<Invocation, MemoModel>,
    count: nat,
    id: SystemId,
)
    requires
        count <= state.systems.len(),
        hooks_due(state, snapshot, memo, count) is Ok,
    ensures
        hooks_due(state, snapshot, memo, count)->Ok_0.contains(id) <==> exists|i: int|
            0 <= i < count && (#[trigger] state.systems[i]).id == id && rests(
                state,
                snapshot,
                memo,
                state.systems[i],
            ),
    decreases count,
{
    if count > 0 {
        let less = (count - 1) as nat;
        let last = state.systems[count - 1];
        lemma_settled_hooks_that_are_due(state, snapshot, memo, less, id);
        let before = hooks_due(state, snapshot, memo, less)->Ok_0;
        lemma_pushed(before, last.id, id);
        let due = hook_due(state, snapshot, memo, last);
        assert(due == Ok::<bool, JoinError>(true) <==> rests(state, snapshot, memo, last));
        if rests(state, snapshot, memo, last) && last.id == id {
            assert(state.systems[count - 1].id == id);
        }
    }
}

/// Whether the settled hook of `system` has something to say: it stands outermost, the
/// system has rows, each of them is memoized, and the hook left nothing behind.
pub open spec fn rests<C: RelationshipTarget>(
    state: StateModel<C>,
    snapshot: WorldModel<C>,
    memo: Map<Invocation, MemoModel>,
    system: SystemModel,
) -> bool {
    &&& system.phase != Phase::Settle
    &&& system.wrappers.len() > 0
    &&& system.wrappers[system.wrappers.len() - 1] == Wrapper::Settled
    &&& system_states(snapshot, system.params) matches Ok(states) && states.len() > 0 && to_run(
        system.id,
        snapshot,
        memo,
        system.params,
        states,
    ).len() == 0
    &&& outputs(
        state.world.owned,
        (Invocation { system: system.id, keys: Seq::empty() }),
    ).len() == 0
}

/// The settle phase runs the batches of its systems over all of their rows, and of no
/// other system.
pub proof fn lemma_settle_phase_plans_its_systems<C: RelationshipTarget>(
    state: StateModel<C>,
    snapshot: WorldModel<C>,
    memo: Map<Invocation, MemoModel>,
    count: nat,
    batch: BatchModel,
)
    requires
        count <= state.systems.len(),
    ensures
        settle_plan(state, snapshot, memo, count) is Ok <==> forall|i: int|
            0 <= i < count && (#[trigger] state.systems[i]).phase == Phase::Settle
                ==> system_states(snapshot, state.systems[i].params) is Ok,
        settle_plan(state, snapshot, memo, count) matches Ok(plan) ==> (plan.contains(batch)
            <==> exists|i: int|
            0 <= i < count && (#[trigger] state.systems[i]).phase == Phase::Settle && batches_of(
                state.systems[i],
                to_run(
                    state.systems[i].id,
                    snapshot,
                    memo,
                    state.systems[i].params,
                    system_states(snapshot, state.systems[i].params)->Ok_0,
                ),
            ).contains(batch)),
    decreases count,
{
    if count > 0 {
        let less = (count - 1) as nat;
        let last = state.systems[count - 1];
        lemma_settle_phase_plans_its_systems(state, snapshot, memo, less, batch);
        let before = settle_plan(state, snapshot, memo, less);
        if before is Ok && last.phase == Phase::Settle {
            if let Ok(states) = system_states(snapshot, last.params) {
                let more = batches_of(
                    last,
                    to_run(last.id, snapshot, memo, last.params, states),
                );
                lemma_joined(before->Ok_0, more, batch);
                assert(state.systems[count - 1].phase == Phase::Settle);
            }
        }
    }
}

/// Whether two lists touch one row of a store, and one of them writes it.
pub open spec fn interfere(a: Seq<Access>, b: Seq<Access>) -> bool {
    exists|i: int, j: int|
        0 <= i < a.len() && 0 <= j < b.len() && (#[trigger] a[i]).component == (
        #[trigger] b[j]).component && (a[i].kind == AccessKind::Write || b[j].kind
            == AccessKind::Write) && (a[i].entity is None || b[j].entity is None || a[i].entity
            == b[j].entity)
}

/// Lists clash exactly when they touch one row of a store, and one of them writes it.
pub proof fn lemma_clash_is_interference(a: Seq<Access>, b: Seq<Access>)
    ensures
        lists_clash(a, b) <==> interfere(a, b),
{
    if lists_clash(a, b) {
        let (i, j) = choose|i: int, j: int|
            0 <= i < a.len() && 0 <= j < b.len() && (#[trigger] a[i]).clashes(#[trigger] b[j]);
        assert(a[i].component == b[j].component);
    }
    if interfere(a, b) {
        let (i, j) = choose|i: int, j: int|
            0 <= i < a.len() && 0 <= j < b.len() && (#[trigger] a[i]).component == (
            #[trigger] b[j]).component && (a[i].kind == AccessKind::Write || b[j].kind
                == AccessKind::Write) && (a[i].entity is None || b[j].entity is None
                || a[i].entity == b[j].entity);
        let row = match a[i].entity {
            Some(row) => row,
            None => match b[j].entity {
                Some(row) => row,
                None => Entity::of(0),
            },
        };
        assert(a[i].reaches(row) && b[j].reaches(row));
        assert(a[i].clashes(b[j]));
    }
}

/// What is asked to run, runs exactly when it is not in flight and interferes with
/// nothing that is; then it is in flight too. What interferes is remembered to be planned
/// again. Nothing else in flight changes.
pub proof fn lemma_admission_is_exclusion(
    driver: DriverModel,
    owner: Invocation,
    access: Seq<Access>,
)
    ensures
        ({
            let running = exists|i: int|
                0 <= i < driver.running.len() && (#[trigger] driver.running[i]).0 == owner;
            let busy = exists|i: int|
                0 <= i < driver.running.len() && interfere(
                    access,
                    (#[trigger] driver.running[i]).1,
                );
            let admission = driver.admission(owner, access);
            let after = driver.admitted(owner, access);
            &&& admission == Admission::Duplicate <==> running
            &&& admission == Admission::Deferred <==> !running && busy
            &&& (admission == Admission::Writer) <==> !running && !busy && exists|i: int|
                0 <= i < access.len() && (#[trigger] access[i]).kind == AccessKind::Write
            &&& if !running && !busy {
                after.running == driver.running.push((owner, access))
            } else {
                after.running == driver.running
            }
            &&& after.deferred <==> driver.deferred || (!running && busy)
            &&& after.needs_plan == driver.needs_plan
            &&& after.changed == driver.changed
            &&& after.allow_preempt == driver.allow_preempt
        }),
{
    assert forall|i: int| 0 <= i < driver.running.len() implies lists_clash(
        access,
        (#[trigger] driver.running[i]).1,
    ) == interfere(access, driver.running[i].1) by {
        lemma_clash_is_interference(access, driver.running[i].1);
    }
}

/// A finished run leaves the others in flight, and it alone; what outlasts a preemption
/// is what writes.
pub proof fn lemma_what_stays_in_flight(
    running: Seq<(Invocation, Seq<Access>)>,
    owner: Invocation,
    run: (Invocation, Seq<Access>),
)
    ensures
        without_run(running, owner).contains(run) <==> running.contains(run) && run.0 != owner,
        writers(running).contains(run) <==> running.contains(run) && exists|i: int|
            0 <= i < run.1.len() && (#[trigger] run.1[i]).kind == AccessKind::Write,
    decreases running.len(),
{
    if running.len() > 0 {
        let rest = running.drop_last();
        lemma_what_stays_in_flight(rest, owner, run);
        lemma_last(running, run);
        lemma_pushed(without_run(rest, owner), running.last(), run);
        lemma_pushed(writers(rest), running.last(), run);
    }
}

/// A phase gives way first where it may, then plans where something is to be planned,
/// and waits otherwise.
pub proof fn lemma_order_of_steps(driver: DriverModel, requested: bool)
    ensures
        driver.step(requested) == DriverStep::Preempt <==> driver.allow_preempt && requested,
        driver.step(requested) == DriverStep::Plan <==> driver.needs_plan && !(
        driver.allow_preempt && requested),
        driver.step(requested) == DriverStep::Await <==> !driver.needs_plan && !(
        driver.allow_preempt && requested),
{
}

/// Commits are refused exactly when there are some and they would go past the limit, or
/// past what can be counted; an overflow is told as such only where it is one.
pub proof fn lemma_budget_is_the_limit(limit: CommitLimit, accepted: nat, commits: nat)
    ensures
        commits == 0 ==> limit.allows(accepted, commits),
        commits > 0 ==> (limit.allows(accepted, commits) <==> accepted + commits <= u64::MAX && (
        limit matches CommitLimit::Max(most) ==> accepted + commits <= most)),
        forall|error: BudgetError| #[trigger]
            limit.refuses(accepted, commits, error) ==> !limit.allows(accepted, commits) && (
            error matches BudgetError::Exceeded { accepted: total, limit: most } ==> limit
                == CommitLimit::Max(most) && total == accepted + commits && most < total),
        limit.refuses(accepted, commits, BudgetError::Overflow) ==> accepted + commits > u64::MAX,
{
}

/// The phases of a generation: startup first, once and where it is asked for; then
/// evaluation and completion. The settle phase is never among them.
pub proof fn lemma_phases_in_order(startup: bool)
    ensures
        ({
            let order = Phase::order(startup);
            &&& order.contains(Phase::Startup) <==> startup
            &&& startup ==> order[0] == Phase::Startup
            &&& order.len() >= 2
            &&& order[order.len() - 2] == Phase::Evaluate
            &&& order[order.len() - 1] == Phase::Complete
            &&& !order.contains(Phase::Settle)
            &&& forall|i: int, j: int| 0 <= i < j < order.len() ==> #[trigger] order[i] != #[trigger] order[j]
        }),
{
    let order = Phase::order(startup);
    if startup {
        assert(order[0] == Phase::Startup);
        assert(order.contains(Phase::Startup));
    }
}

/// A generation goes through its phases one by one. A preemption starts it over with
/// startup, at most as often as the budget allows; that something changed is not
/// forgotten.
pub proof fn lemma_generation_goes_through_its_phases(plan: PlanModel, changed: bool)
    requires
        plan.index < plan.phases.len(),
        plan.phases.len() <= u32::MAX,
        plan.preemptions < u32::MAX,
    ensures
        plan.advanced(changed).index == plan.index + 1,
        plan.advanced(changed).phases == plan.phases,
        plan.advanced(changed).preemptions == plan.preemptions,
        plan.advanced(changed).changed <==> plan.changed || changed,
        plan.restarted(changed).index == 0,
        plan.restarted(changed).phases[0] == Phase::Startup,
        plan.restarted(changed).preemptions == plan.preemptions + 1,
        plan.restarted(changed).changed <==> plan.changed || changed,
        plan.may_preempt() <==> plan.preemptions < PREEMPTION_BUDGET,
{
}

/// A settle waits for the generation that is pending, else for the one that runs, else
/// for the last that is complete.
pub proof fn lemma_settle_waits_for_the_latest<C: RelationshipTarget>(state: StateModel<C>)
    ensures
        state.pending matches Some(generation) ==> state.settle_target() == generation,
        state.pending is None && state.running is Some ==> state.settle_target()
            == state.running->Some_0,
        state.pending is None && state.running is None ==> state.settle_target()
            == state.completed,
{
}

/// In-place writes count exactly where the invocation held the row exclusively.
pub proof fn lemma_only_held_rows_are_written<C: RelationshipTarget>(
    access: Seq<Access>,
    written: Seq<(Entity, C::Model)>,
    write: (Entity, C::Model),
)
    ensures
        permitted::<C>(access, written).contains(write) <==> written.contains(write) && exists|
            i: int,
        |
            0 <= i < access.len() && (#[trigger] access[i]).kind == AccessKind::Write
                && access[i].component == C::kind(write.1) && access[i].entity == Some(write.0),
    decreases written.len(),
{
    lemma_rows_written(access, (C::kind(write.1), write.0));
    if written.len() > 0 {
        let rest = written.drop_last();
        lemma_only_held_rows_are_written::<C>(access, rest, write);
        lemma_last(written, write);
        lemma_pushed(permitted::<C>(access, rest), written.last(), write);
    }
}

proof fn lemma_rows_written(access: Seq<Access>, cell: Cell)
    ensures
        rows_written(access).contains(cell) <==> exists|i: int|
            0 <= i < access.len() && (#[trigger] access[i]).kind == AccessKind::Write
                && access[i].component == cell.0 && access[i].entity == Some(cell.1),
    decreases access.len(),
{
    if access.len() > 0 {
        let rest = access.drop_last();
        let last = access.last();
        lemma_rows_written(rest, cell);
        if let Some(entity) = last.entity {
            lemma_pushed(rows_written(rest), (last.component, entity), cell);
        }
        if exists|i: int|
            0 <= i < access.len() && (#[trigger] access[i]).kind == AccessKind::Write
                && access[i].component == cell.0 && access[i].entity == Some(cell.1) {
            let i = choose|i: int|
                0 <= i < access.len() && (#[trigger] access[i]).kind == AccessKind::Write
                    && access[i].component == cell.0 && access[i].entity == Some(cell.1);
            if i < rest.len() {
                assert(rest[i].kind == AccessKind::Write);
            }
        }
        if exists|i: int|
            0 <= i < rest.len() && (#[trigger] rest[i]).kind == AccessKind::Write
                && rest[i].component == cell.0 && rest[i].entity == Some(cell.1) {
            let i = choose|i: int|
                0 <= i < rest.len() && (#[trigger] rest[i]).kind == AccessKind::Write
                    && rest[i].component == cell.0 && rest[i].entity == Some(cell.1);
            assert(access[i].kind == AccessKind::Write);
        }
        if last.kind == AccessKind::Write {
            assert(access[access.len() - 1].kind == AccessKind::Write);
        }
    }
}

/// Runs that are merged keep all that each of them did, in order, and are complete when
/// all of them are.
pub proof fn lemma_merged_runs_lose_nothing<C: RelationshipTarget>(
    completed: bool,
    runs: Seq<RunModel<C>>,
    last: RunModel<C>,
)
    ensures
        ({
            let so_far = merged(completed, runs);
            let all = merged(completed, runs.push(last));
            &&& merged(completed, Seq::<RunModel<C>>::empty()) == RunModel::<C>::nothing(completed)
            &&& all.outputs == so_far.outputs + last.outputs
            &&& all.updates == so_far.updates + last.updates
            &&& all.writes == so_far.writes + last.writes
            &&& all.completed <==> so_far.completed && last.completed
        }),
{
    assert(runs.push(last).drop_last() =~= runs);
}

/// A hook around a system adds what it declares to what the system declares, stands
/// outermost, and makes the next plan a full one.
pub proof fn lemma_wrapping_adds_a_hook(
    system: SystemModel,
    wrapper: Wrapper,
    declared: Option<Seq<ComponentId>>,
    kind: ComponentId,
)
    ensures
        ({
            let after = system.wrapped(wrapper, declared);
            &&& after.outputs is None <==> system.outputs is None || declared is None
            &&& after.outputs matches Some(all) ==> (all.contains(kind)
                <==> system.outputs->Some_0.contains(kind) || declared->Some_0.contains(kind))
            &&& after.wrappers == system.wrappers.push(wrapper)
            &&& after.batched() <==> system.batched() || wrapper == Wrapper::Start || wrapper
                == Wrapper::Complete
            &&& after.settles() <==> wrapper == Wrapper::Settled
            &&& after.mark == 0
            &&& after.epoch == u64::MAX
            &&& after.params == system.params
            &&& after.phase == system.phase
            &&& after.interest == system.interest
            &&& after.views == system.views
        }),
{
    if system.outputs is Some && declared is Some {
        lemma_joined(system.outputs->Some_0, declared->Some_0, kind);
    }
    lemma_pushed(system.wrappers, wrapper, Wrapper::Start);
    lemma_pushed(system.wrappers, wrapper, Wrapper::Complete);
}

/// A system declares what its command buffers declare, and anything at all as soon as
/// one of them does not say; it is interested in what any parameter looks at, without a
/// bound as soon as one of them has none; each of its views asks for what the view reads.
pub proof fn lemma_system_declarations(
    params: Seq<ParamModel>,
    count: nat,
    kind: ComponentId,
    view: Seq<ComponentId>,
)
    requires
        count <= params.len(),
    ensures
        system_outputs(params, count) is None <==> exists|i: int|
            0 <= i < count && (#[trigger] params[i]) == ParamModel::Commands(None),
        system_outputs(params, count) matches Some(all) ==> (all.contains(kind) <==> exists|
            i: int,
        |
            0 <= i < count && ((#[trigger] params[i]) matches ParamModel::Commands(Some(declared))
                && declared.contains(kind))),
        system_interest(params, count) is None <==> exists|i: int|
            0 <= i < count && (#[trigger] params[i]).interest() is None,
        system_interest(params, count) matches Some(all) ==> (all.contains(kind) <==> exists|
            i: int,
        | 0 <= i < count && (#[trigger] params[i]).interest()->Some_0.contains(kind)),
        system_views(params, count).contains(view) <==> exists|i: int|
            0 <= i < count && ((#[trigger] params[i]) matches ParamModel::View(query) && view
                == query.parts.map_values(|part: crate::query::QueryPart| part.component)),
    decreases count,
{
    if count > 0 {
        let less = (count - 1) as nat;
        let last = params[count - 1];
        lemma_system_declarations(params, less, kind, view);
        if let (Some(a), Some(b)) = (system_outputs(params, less), last.declared()) {
            lemma_joined(a, b, kind);
        }
        if let (Some(a), Some(b)) = (system_interest(params, less), last.interest()) {
            lemma_joined(a, b, kind);
        }
        if let ParamModel::View(query) = last {
            lemma_pushed(
                system_views(params, less),
                crate::query::part_components(query.parts),
                view,
            );
        }
    }
}

/// A parameter looks at every component its row data or its conditions name; only what
/// has no row data to bound it looks at everything.
pub proof fn lemma_interest_of_a_parameter(
    param: ParamModel,
    query: QueryModel,
    kind: ComponentId,
)
    ensures
        param == ParamModel::Query(query) || param == ParamModel::Outer(query) ==> {
            &&& param.interest() is None <==> query.parts.len() == 0
            &&& query.parts.len() > 0 ==> (param.interest()->Some_0.contains(kind) <==> (exists|
                i: int,
            |
                0 <= i < query.parts.len() && (#[trigger] query.parts[i]).component == kind) || (
            exists|i: int|
                0 <= i < query.filters.len() && names((#[trigger] query.filters[i]), kind)))
        },
        param is View || param is Commands ==> param.interest() == Some(
            Seq::<ComponentId>::empty(),
        ),
        param is Meta ==> param.interest() is None,
{
    let parts = crate::query::part_components(query.parts);
    let looks = crate::param::watched(query.filters);
    lemma_joined(parts, looks, kind);
    if parts.contains(kind) {
        let i = choose|i: int| 0 <= i < parts.len() && parts[i] == kind;
        assert(query.parts[i].component == kind);
    }
    if exists|i: int| 0 <= i < query.parts.len() && (#[trigger] query.parts[i]).component == kind {
        let i = choose|i: int|
            0 <= i < query.parts.len() && (#[trigger] query.parts[i]).component == kind;
        assert(parts[i] == kind);
    }
    if looks.contains(kind) {
        let i = choose|i: int| 0 <= i < looks.len() && looks[i] == kind;
        assert(names(query.filters[i], kind));
    }
    if exists|i: int| 0 <= i < query.filters.len() && names((#[trigger] query.filters[i]), kind) {
        let i = choose|i: int|
            0 <= i < query.filters.len() && names((#[trigger] query.filters[i]), kind);
        assert(looks[i] == kind);
    }
}

/// Whether a condition is about `kind`.
pub open spec fn names(filter: RowFilter, kind: ComponentId) -> bool {
    filter == RowFilter::With(kind) || filter == RowFilter::Without(kind) || filter
        == RowFilter::Bound(kind) || filter == RowFilter::Member(kind) || filter
        == RowFilter::Anchor(kind) || filter == RowFilter::Maybe(kind)
}

/// Whether parameter `at` reads `key` for others to join on.
#[verifier::opaque]
pub open spec fn reads_key(params: Seq<ParamModel>, at: int, key: ComponentId) -> bool {
    params[at] matches ParamModel::Query(query) && exists|i: int|
        0 <= i < query.parts.len() && (#[trigger] query.parts[i]).component == key
            && query.parts[i].mode == PartMode::Read
}

/// Whether exactly one parameter from `from` on, other than `at`, reads `key`.
pub open spec fn one_reader(
    params: Seq<ParamModel>,
    key: ComponentId,
    at: int,
    from: int,
) -> bool {
    exists|j: int|
        from <= j < params.len() && j != at && #[trigger] reads_key(params, j, key) && forall|
            i: int,
        |
            from <= i < params.len() && i != at && #[trigger] reads_key(params, i, key) ==> i == j
}

proof fn lemma_providers(params: Seq<ParamModel>, key: ComponentId, at: int, from: int)
    requires
        0 <= from,
    ensures
        providers(params, key, at, from) == 0 <==> forall|i: int|
            from <= i < params.len() && i != at ==> !#[trigger] reads_key(params, i, key),
        providers(params, key, at, from) == 1 <==> one_reader(params, key, at, from),
    decreases params.len() - from,
{
    if from < params.len() {
        lemma_providers(params, key, at, from + 1);
        assert(params[from].provides(key) <==> reads_key(params, from, key)) by {
            reveal(reads_key);
        }
        if from != at && reads_key(params, from, key) {
            if providers(params, key, at, from + 1) == 0 {
                assert(one_reader(params, key, at, from));
            }
            if one_reader(params, key, at, from) {
                let j = choose|j: int|
                    from <= j < params.len() && j != at && #[trigger] reads_key(params, j, key)
                        && forall|i: int|
                        from <= i < params.len() && i != at && #[trigger] reads_key(params, i, key)
                            ==> i == j;
                assert(j == from);
            }
        } else {
            if one_reader(params, key, at, from + 1) {
                let j = choose|j: int|
                    from + 1 <= j < params.len() && j != at && #[trigger] reads_key(params, j, key)
                        && forall|i: int|
                        from + 1 <= i < params.len() && i != at && #[trigger] reads_key(
                            params,
                            i,
                            key,
                        ) ==> i == j;
                assert(reads_key(params, j, key));
                assert(one_reader(params, key, at, from));
            }
            if one_reader(params, key, at, from) {
                let j = choose|j: int|
                    from <= j < params.len() && j != at && #[trigger] reads_key(params, j, key)
                        && forall|i: int|
                        from <= i < params.len() && i != at && #[trigger] reads_key(params, i, key)
                            ==> i == j;
                assert(reads_key(params, j, key));
                assert(one_reader(params, key, at, from + 1));
            }
        }
    }
}

proof fn lemma_unprovided(params: Seq<ParamModel>, at: int, keys: Seq<ComponentId>, from: int)
    requires
        0 <= from,
    ensures
        first_unprovided(params, at, keys, from) is None <==> forall|i: int|
            from <= i < keys.len() ==> one_reader(params, #[trigger] keys[i], at, 0),
    decreases keys.len() - from,
{
    if from < keys.len() {
        lemma_unprovided(params, at, keys, from + 1);
        lemma_providers(params, keys[from], at, 0);
    }
}

/// Whether parameter `at` may stand next to its siblings: an outer join has a key, a
/// view has none, and every key it joins on is read by exactly one sibling.
pub open spec fn well_bound(params: Seq<ParamModel>, at: int) -> bool {
    &&& params[at] is Outer ==> exists|key: ComponentId| #[trigger] asks_key(params[at], key)
    &&& params[at] is View ==> forall|key: ComponentId| !#[trigger] asks_key(params[at], key)
    &&& forall|key: ComponentId| #[trigger]
        asks_key(params[at], key) ==> one_reader(params, key, at, 0)
    &&& forall|key: ComponentId| #[trigger]
        asks_membership(params[at], key) ==> one_reader(params, key, at, 0)
}

proof fn lemma_local_error(params: Seq<ParamModel>, from: int)
    requires
        0 <= from,
    ensures
        first_local_error(params, from) is None <==> forall|i: int|
            from <= i < params.len() ==> (#[trigger] params[i]).local_error() is None,
        first_unbound(params, from) is None <==> forall|i: int|
            from <= i < params.len() ==> first_unprovided(
                params,
                i,
                join_keys(#[trigger] params[i]),
                0,
            ) is None,
    decreases params.len() - from,
{
    if from < params.len() {
        lemma_local_error(params, from + 1);
        let own = params[from];
    }
}

/// Parameters are accepted exactly when each may stand next to its siblings.
pub proof fn lemma_what_is_accepted(params: Seq<ParamModel>)
    ensures
        binding_error(params) is None <==> forall|i: int|
            0 <= i < params.len() ==> #[trigger] well_bound(params, i),
{
    lemma_local_error(params, 0);
    assert forall|i: int| 0 <= i < params.len() implies (#[trigger] well_bound(params, i) <==> (
    params[i].local_error() is None && first_unprovided(
        params,
        i,
        join_keys(params[i]),
        0,
    ) is None)) by {
        let param = params[i];
        let keys = join_keys(param);
        lemma_unprovided(params, i, keys, 0);
        assert forall|key: ComponentId|
            #![trigger asks_key(param, key)]
            #![trigger asks_membership(param, key)]
            (param.bound_kinds().contains(key) <==> asks_key(param, key)) && (
            param.member_kinds().contains(key) <==> asks_membership(param, key)) && (
            keys.contains(key) <==> (asks_key(param, key) || asks_membership(param, key))) by {
            crate::join_laws::lemma_asked(param, key);
            lemma_joined(param.bound_kinds(), param.member_kinds(), key);
        }
        if param.bound_kinds().len() > 0 {
            assert(param.bound_kinds().contains(param.bound_kinds()[0]));
            assert(asks_key(param, param.bound_kinds()[0])) by {
                crate::join_laws::lemma_asked(param, param.bound_kinds()[0]);
            }
        }
        if well_bound(params, i) {
            assert forall|j: int| 0 <= j < keys.len() implies one_reader(
                params,
                #[trigger] keys[j],
                i,
                0,
            ) by {
                assert(keys.contains(keys[j]));
                let key = keys[j];
                crate::join_laws::lemma_asked(param, key);
                lemma_joined(param.bound_kinds(), param.member_kinds(), key);
            }
            if param is Outer {
                let key = choose|key: ComponentId| #[trigger] asks_key(param, key);
                assert(param.bound_kinds().contains(key));
            }
        }
        if params[i].local_error() is None && first_unprovided(params, i, keys, 0) is None {
            assert forall|key: ComponentId|
                #![trigger asks_key(param, key)]
                #![trigger asks_membership(param, key)]
                asks_key(param, key) || asks_membership(param, key) implies one_reader(
                params,
                key,
                i,
                0,
            ) by {
                let j = choose|j: int| 0 <= j < keys.len() && keys[j] == key;
                assert(one_reader(params, keys[j], i, 0));
            }
        }
    }
    if binding_error(params) is None {
        assert forall|i: int| 0 <= i < params.len() implies #[trigger] well_bound(params, i) by {
            let own = params[i];
        }
    }
    if forall|i: int| 0 <= i < params.len() ==> #[trigger] well_bound(params, i) {
        assert forall|i: int| 0 <= i < params.len() implies (
        #[trigger] params[i]).local_error() is None && first_unprovided(
            params,
            i,
            join_keys(params[i]),
            0,
        ) is None by {
            assert(well_bound(params, i));
        }
    }
}

} // verus!
