//! What a settle comes to, however it gets there: runs, budgets and the end.

use crate::access::AccessKind;
use crate::commands::{after_reserve, next_slot};
use crate::commit::commit_run;
use crate::component::RelationshipTarget;
use crate::entity::Entity;
use crate::evaluation::{BatchModel, CommitLimit};
use crate::invocation::{Invocation, SystemId};
use crate::memo::{MemoModel, PlannedModel};
use crate::model::WorldModel;
use crate::schedule_laws::{interfere, lemma_clash_is_interference, lemma_only_held_rows_are_written};
use crate::seq_laws::{lemma_joined, lemma_pushed};
use crate::state::bodies::{
    batch_owners, fresh_buffer, hook_positions, invocation_ran, invocations_ran, outer_positions,
    updates_of, SystemBodies,
};
use crate::state::course::{admission_beside, taken_up, Trail};
use crate::state::inputs::covered_inputs;
use crate::state::{StateModel, Ticket};
use crate::system::{OutputModel, Phase, RunModel, Wrapper};
use vstd::prelude::*;

verus! {

/// The hooks of a kind around a system are exactly the places where it stands; start
/// hooks run from the outermost in, the others from the innermost out.
pub proof fn lemma_hooks_in_order(wrappers: Seq<Wrapper>, wrapper: Wrapper, place: usize)
    requires
        wrappers.len() <= usize::MAX,
    ensures
        hook_positions(wrappers, wrapper).contains(place) <==> place < wrappers.len()
            && wrappers[place as int] == wrapper,
        outer_positions(wrappers, wrapper).contains(place) <==> place < wrappers.len()
            && wrappers[place as int] == wrapper,
        forall|i: int, j: int|
            0 <= i < j < hook_positions(wrappers, wrapper).len() ==> #[trigger] hook_positions(
                wrappers,
                wrapper,
            )[i] < #[trigger] hook_positions(wrappers, wrapper)[j],
        forall|i: int, j: int|
            0 <= i < j < outer_positions(wrappers, wrapper).len() ==> #[trigger] outer_positions(
                wrappers,
                wrapper,
            )[i] > #[trigger] outer_positions(wrappers, wrapper)[j],
        forall|i: int|
            0 <= i < hook_positions(wrappers, wrapper).len() ==> (#[trigger] hook_positions(
                wrappers,
                wrapper,
            )[i]) < wrappers.len(),
        forall|i: int|
            0 <= i < outer_positions(wrappers, wrapper).len() ==> (#[trigger] outer_positions(
                wrappers,
                wrapper,
            )[i]) < wrappers.len(),
    decreases wrappers.len(),
{
    if wrappers.len() > 0 {
        let rest = wrappers.drop_last();
        lemma_hooks_in_order(rest, wrapper, place);
        let last = (wrappers.len() - 1) as usize;
        let inner = hook_positions(rest, wrapper);
        let outer = outer_positions(rest, wrapper);
        lemma_pushed(inner, last, place);
        lemma_joined(seq![last], outer, place);
        assert(seq![last].contains(place) <==> place == last) by {
            assert(seq![last][0] == last);
        }
        if place < rest.len() {
            assert(rest[place as int] == wrappers[place as int]);
        }
        let more = hook_positions(wrappers, wrapper);
        assert forall|i: int, j: int| 0 <= i < j < more.len() implies #[trigger] more[i]
            < #[trigger] more[j] by {
            if j < inner.len() {
                assert(more[i] == inner[i] && more[j] == inner[j]);
            } else {
                assert(more[i] == inner[i]);
            }
        }
        assert forall|i: int| 0 <= i < more.len() implies (#[trigger] more[i]) < wrappers.len() by {
            if i < inner.len() {
                assert(more[i] == inner[i]);
            }
        }
        let wider = outer_positions(wrappers, wrapper);
        if wrappers.last() == wrapper {
            assert forall|i: int, j: int| 0 <= i < j < wider.len() implies #[trigger] wider[i]
                > #[trigger] wider[j] by {
                assert(wider[j] == outer[j - 1]);
                if i > 0 {
                    assert(wider[i] == outer[i - 1]);
                }
            }
            assert forall|i: int| 0 <= i < wider.len() implies (#[trigger] wider[i])
                < wrappers.len() by {
                if i > 0 {
                    assert(wider[i] == outer[i - 1]);
                }
            }
        }
    }
}

/// Each planned invocation runs once, in order, and answers under its own name; what it
/// writes in place are rows that it held exclusively.
pub proof fn lemma_invocations_run_in_order<C: RelationshipTarget, B: SystemBodies<C>>(
    before: B,
    planned: Seq<PlannedModel>,
    snapshot: WorldModel<C>,
    ids: u64,
    after: B,
    next: u64,
    outputs: Seq<OutputModel<C>>,
    writes: Seq<(Entity, C::Model)>,
    at: int,
)
    requires
        invocations_ran(before, planned, snapshot, ids, after, next, outputs, writes),
    ensures
        outputs.len() == planned.len(),
        0 <= at < planned.len() ==> outputs[at].owner == planned[at].owner,
        forall|w: int|
            0 <= w < writes.len() ==> #[trigger] held_by_some::<C>(planned, writes[w]),
    decreases planned.len(),
{
    if planned.len() > 0 {
        let rest = planned.drop_last();
        let last = planned.last();
        let (middle, from, mine) = choose|middle: B, from: u64, mine: Seq<(Entity, C::Model)>|
            #[trigger] invocation_ran(
                middle,
                last,
                snapshot,
                from,
                after,
                next,
                outputs.last(),
                mine,
            ) && mine.len() <= writes.len() && writes.skip(writes.len() - mine.len()) == mine
                && invocations_ran(
                before,
                rest,
                snapshot,
                ids,
                middle,
                from,
                outputs.drop_last(),
                writes.take(writes.len() - mine.len()),
            );
        let earlier = writes.take(writes.len() - mine.len());
        lemma_invocations_run_in_order(
            before,
            rest,
            snapshot,
            ids,
            middle,
            from,
            outputs.drop_last(),
            earlier,
            at,
        );
        if 0 <= at < rest.len() {
            assert(outputs[at] == outputs.drop_last()[at]);
            assert(rest[at] == planned[at]);
        }
        assert forall|w: int| 0 <= w < writes.len() implies #[trigger] held_by_some::<C>(
            planned,
            writes[w],
        ) by {
            if w < earlier.len() {
                assert(earlier[w] == writes[w]);
                assert(held_by_some::<C>(rest, earlier[w]));
                let i = choose|i: int|
                    0 <= i < rest.len() && #[trigger] holds_row::<C>(rest[i], writes[w]);
                assert(holds_row::<C>(planned[i], writes[w]));
            } else {
                let k = w - earlier.len();
                assert(writes.skip(earlier.len() as int)[k] == writes[w]);
                assert(mine[k] == writes[w]);
                let reply = choose|reply: crate::state::bodies::ReplyModel<C>| #[trigger]
                    B::runs(
                        middle,
                        crate::state::bodies::CallModel {
                            system: last.owner.system,
                            rows: last.state,
                            snapshot,
                            buffer: fresh_buffer(snapshot, last.owner),
                            ids: from,
                        },
                        after,
                        reply,
                    ) && reply.ids == next && outputs.last().ops == reply.filled.ops && mine
                        == crate::system::permitted::<C>(last.access, reply.writes);
                assert(mine.contains(mine[k]));
                lemma_only_held_rows_are_written::<C>(last.access, reply.writes, writes[w]);
                assert(holds_row::<C>(planned[planned.len() - 1], writes[w]));
            }
        }
    }
}

/// Whether an invocation held the row of `write` exclusively.
pub open spec fn holds_row<C: RelationshipTarget>(
    planned: PlannedModel,
    write: (Entity, C::Model),
) -> bool {
    exists|i: int|
        0 <= i < planned.access.len() && (#[trigger] planned.access[i]).kind == AccessKind::Write
            && planned.access[i].component == C::kind(write.1) && planned.access[i].entity == Some(
            write.0,
        )
}

/// Whether one of `planned` held the row of `write` exclusively.
pub open spec fn held_by_some<C: RelationshipTarget>(
    planned: Seq<PlannedModel>,
    write: (Entity, C::Model),
) -> bool {
    exists|i: int| 0 <= i < planned.len() && #[trigger] holds_row::<C>(planned[i], write)
}

/// What a run records: for each invocation, in order, its name, the inputs it was planned
/// with, and the revision it was planned at.
pub proof fn lemma_runs_record_their_inputs(planned: Seq<PlannedModel>, revision: u64, at: int)
    requires
        0 <= at < planned.len(),
    ensures
        updates_of(planned, revision).len() == planned.len(),
        updates_of(planned, revision)[at].0 == planned[at].owner,
        updates_of(planned, revision)[at].1.deps == planned[at].deps,
        updates_of(planned, revision)[at].1.planned_revision == revision,
{
}

/// A batch answers for its start hooks, its invocations and its completion hooks, in this
/// order: hooks under the name of the system, invocations under their own.
pub proof fn lemma_batch_answers_in_order(
    system: SystemId,
    wrappers: Seq<Wrapper>,
    planned: Seq<PlannedModel>,
    at: int,
)
    requires
        planned.len() > 0,
        0 <= at < batch_owners(system, wrappers, planned).len(),
    ensures
        ({
            let starts = outer_positions(wrappers, Wrapper::Start).len();
            let ends = hook_positions(wrappers, Wrapper::Complete).len();
            let owners = batch_owners(system, wrappers, planned);
            &&& owners.len() == starts + planned.len() + ends
            &&& starts <= at < starts + planned.len() ==> owners[at] == planned[at - starts].owner
            &&& !(starts <= at < starts + planned.len()) ==> owners[at] == (Invocation {
                system,
                keys: Seq::empty(),
            })
        }),
{
}

/// A buffer starts empty, with the entities that its invocation spawned before; each spawn
/// takes the next of them, and a new one only when there is none left.
pub proof fn lemma_spawns_reuse_slots<C: RelationshipTarget>(
    snapshot: WorldModel<C>,
    owner: Invocation,
    slots: Seq<Entity>,
    cursor: usize,
    next: u64,
)
    ensures
        fresh_buffer(snapshot, owner).ops.len() == 0,
        fresh_buffer(snapshot, owner).cursor == 0,
        snapshot.spawns.contains_key(owner) ==> fresh_buffer(snapshot, owner).slots
            == snapshot.spawns[owner],
        !snapshot.spawns.contains_key(owner) ==> fresh_buffer(snapshot, owner).slots.len() == 0,
        cursor < slots.len() ==> crate::commands::reserved(slots, cursor, next) == slots[cursor as int]
            && after_reserve(slots, cursor, next) == next,
        cursor >= slots.len() ==> crate::commands::reserved(slots, cursor, next).id() == next,
        cursor >= slots.len() && next < u64::MAX ==> after_reserve(slots, cursor, next) == next + 1,
        cursor < usize::MAX ==> next_slot(cursor) == cursor + 1,
{
}

/// Of the batches of a wave, those run that interfere with none that runs; every other one
/// either interferes with one that does, or is in flight already. What runs next to each
/// other never interferes, and no invocation runs twice at once.
pub proof fn lemma_what_runs_at_once<C: RelationshipTarget>(
    state: StateModel<C>,
    batches: Seq<BatchModel>,
    at: int,
)
    ensures
        ({
            let taken = taken_up(state, batches);
            &&& taken.picked.len() == taken.running.len()
            &&& forall|j: int|
                0 <= j < taken.picked.len() ==> 0 <= #[trigger] taken.picked[j] < batches.len()
                    && taken.running[j] == (
                    batches[taken.picked[j]].owner,
                    batches[taken.picked[j]].access,
                )
            &&& forall|i: int, j: int|
                0 <= i < j < taken.picked.len() ==> #[trigger] taken.picked[i]
                    < #[trigger] taken.picked[j] && taken.running[i].0 != taken.running[j].0
                    && !interfere(taken.running[j].1, taken.running[i].1)
            &&& 0 <= at < batches.len() ==> taken.picked.contains(at) || exists|j: int|
                0 <= j < taken.running.len() && ((#[trigger] taken.running[j]).0
                    == batches[at].owner || interfere(batches[at].access, taken.running[j].1))
            &&& taken.state.world == state.world
        }),
    decreases batches.len(),
{
    if batches.len() > 0 {
        let rest = batches.drop_last();
        let batch = batches.last();
        lemma_what_runs_at_once(state, rest, at);
        let done = taken_up(state, rest);
        let taken = taken_up(state, batches);
        let n = done.running.len() as int;
        assert forall|i: int| 0 <= i < n implies crate::access::lists_clash(
            batch.access,
            (#[trigger] done.running[i]).1,
        ) == interfere(batch.access, done.running[i].1) by {
            lemma_clash_is_interference(batch.access, done.running[i].1);
        }
        assert forall|j: int| 0 <= j < taken.picked.len() implies 0 <= #[trigger] taken.picked[j]
            < batches.len() && taken.running[j] == (
            batches[taken.picked[j]].owner,
            batches[taken.picked[j]].access,
        ) by {
            if j < n {
                assert(taken.picked[j] == done.picked[j]);
                assert(taken.running[j] == done.running[j]);
                assert(rest[done.picked[j]] == batches[done.picked[j]]);
            }
        }
        assert forall|i: int, j: int| 0 <= i < j < taken.picked.len() implies #[trigger] taken.picked[i]
            < #[trigger] taken.picked[j] && taken.running[i].0 != taken.running[j].0 && !interfere(
            taken.running[j].1,
            taken.running[i].1,
        ) by {
            assert(taken.picked[i] == done.picked[i]);
            assert(taken.running[i] == done.running[i]);
            if j < n {
                assert(taken.picked[j] == done.picked[j]);
                assert(taken.running[j] == done.running[j]);
            } else {
                assert(admission_beside(done.running, batch) is Writer || admission_beside(
                    done.running,
                    batch,
                ) is Reader);
            }
        }
        if 0 <= at < rest.len() {
            assert(rest[at] == batches[at]);
            if done.picked.contains(at) {
                let j = choose|j: int| 0 <= j < done.picked.len() && done.picked[j] == at;
                assert(taken.picked[j] == at);
            } else {
                let j = choose|j: int|
                    0 <= j < done.running.len() && ((#[trigger] done.running[j]).0 == rest[at].owner
                        || interfere(rest[at].access, done.running[j].1));
                assert(taken.running[j] == done.running[j]);
            }
        } else if at == rest.len() {
            if taken.picked.len() > n {
                assert(taken.picked[n] == at);
            } else {
                let admission = admission_beside(done.running, batch);
                if admission is Duplicate {
                    let j = choose|j: int|
                        0 <= j < n && (#[trigger] done.running[j]).0 == batch.owner;
                    assert(taken.running[j].0 == batch.owner);
                } else {
                    let j = choose|j: int|
                        0 <= j < n && crate::access::lists_clash(
                            batch.access,
                            (#[trigger] done.running[j]).1,
                        );
                    assert(interfere(batch.access, taken.running[j].1));
                }
            }
        }
    }
}

/// Runs that are committed in a wave are committed one behind the other; one whose inputs
/// went stale is due again, and each that changed something counts once.
pub proof fn lemma_wave_commits_in_turn<C: RelationshipTarget>(
    state: StateModel<C>,
    memo: Map<Invocation, MemoModel>,
    runs: Seq<(Invocation, RunModel<C>)>,
    last: (Invocation, RunModel<C>),
    phase: Phase,
)
    ensures
        state.committing(memo, Seq::empty(), phase) is Ok,
        state.followups(memo, Seq::empty(), phase) == 0,
        ({
            let done = state.committing(memo, runs, phase);
            let all = state.committing(memo, runs.push(last), phase);
            let count = state.followups(memo, runs.push(last), phase);
            match done {
                Err(refusal) => all == Err::<
                    (StateModel<C>, Map<Invocation, MemoModel>),
                    crate::commit::RefusalModel,
                >(refusal),
                Ok((middle, table)) => {
                    let next = commit_run(
                        middle.commit_state(table),
                        last.1,
                        Some(phase),
                        middle.checks(),
                    );
                    match next.1 {
                        Err(refusal) => all == Err::<
                            (StateModel<C>, Map<Invocation, MemoModel>),
                            crate::commit::RefusalModel,
                        >(refusal),
                        Ok(progress) => {
                            &&& all matches Ok((after, now)) && {
                                &&& after.world == next.0.world
                                &&& after.held == next.0.held
                                &&& now == next.0.memo
                                &&& !progress.stale ==> after.systems == middle.systems
                                &&& progress.stale ==> after.systems == middle.replanned(
                                    last.0,
                                ).systems
                            }
                            &&& count == state.followups(memo, runs, phase) + if progress.needs_followup {
                                1nat
                            } else {
                                0nat
                            }
                        },
                    }
                },
            }
        }),
{
    assert(runs.push(last).drop_last() =~= runs);
}

proof fn lemma_waves_within<C: RelationshipTarget, B: SystemBodies<C>>(
    state: StateModel<C>,
    phase: Phase,
    memo: Map<Invocation, MemoModel>,
    most: u64,
    from: Trail<B>,
    count: nat,
    after: StateModel<C>,
    after_memo: Map<Invocation, MemoModel>,
    to: Trail<B>,
)
    requires
        state.waves_lead(phase, memo, CommitLimit::Max(most), from, count, after, after_memo, to),
        from.spent <= most,
    ensures
        from.spent <= to.spent <= most,
    decreases count,
{
    if count > 0 {
        let limit = CommitLimit::Max(most);
        let (middle, table, trail, runs, next_entity) = choose|
            middle: StateModel<C>,
            table: Map<Invocation, MemoModel>,
            trail: Trail<B>,
            runs: Seq<(Invocation, RunModel<C>)>,
            next_entity: u64,
        |
            state.waves_lead(phase, memo, limit, from, (count - 1) as nat, middle, table, trail)
                && #[trigger] middle.wave_leads(
                phase,
                table,
                limit,
                trail,
                runs,
                next_entity,
                after,
                after_memo,
                to,
            );
        lemma_waves_within(state, phase, memo, most, from, (count - 1) as nat, middle, table, trail);
    }
}

proof fn lemma_phases_within<C: RelationshipTarget, B: SystemBodies<C>>(
    state: StateModel<C>,
    phases: Seq<Phase>,
    memo: Map<Invocation, MemoModel>,
    most: u64,
    from: Trail<B>,
    changed: bool,
    after: StateModel<C>,
    after_memo: Map<Invocation, MemoModel>,
    to: Trail<B>,
)
    requires
        state.phases_lead(
            phases,
            memo,
            CommitLimit::Max(most),
            from,
            changed,
            after,
            after_memo,
            to,
        ),
        from.spent <= most,
    ensures
        from.spent <= to.spent <= most,
    decreases phases.len(),
{
    if phases.len() > 0 {
        let limit = CommitLimit::Max(most);
        let (moved, middle, table, trail) = choose|
            moved: bool,
            middle: StateModel<C>,
            table: Map<Invocation, MemoModel>,
            trail: Trail<B>,
        |
            state.phases_lead(phases.drop_last(), memo, limit, from, moved, middle, table, trail)
                && #[trigger] middle.phase_leads(
                phases.last(),
                table,
                limit,
                trail,
                moved,
                changed,
                after,
                after_memo,
                to,
            );
        lemma_phases_within(
            state,
            phases.drop_last(),
            memo,
            most,
            from,
            moved,
            middle,
            table,
            trail,
        );
        let count = choose|count: nat| #[trigger]
            middle.waves_lead(phases.last(), table, limit, trail, count, after, after_memo, to);
        lemma_waves_within(
            middle,
            phases.last(),
            table,
            most,
            trail,
            count,
            after,
            after_memo,
            to,
        );
    }
}

proof fn lemma_driven_within<C: RelationshipTarget, B: SystemBodies<C>>(
    state: StateModel<C>,
    most: u64,
    from: Trail<B>,
    ran: StateModel<C>,
    to: Trail<B>,
)
    requires
        state.driven(CommitLimit::Max(most), from, ran, to),
        from.spent <= most,
    ensures
        from.spent <= to.spent <= most,
{
    let limit = CommitLimit::Max(most);
    if state.pending is Some {
        let (after, table, changed) = choose|
            after: StateModel<C>,
            table: Map<Invocation, MemoModel>,
            changed: bool,
        |
            #![trigger state.begun().phases_lead(state.due_phases(), state.memo, limit, from, changed, after, table, to)]
            state.begun().phases_lead(
                state.due_phases(),
                state.memo,
                limit,
                from,
                changed,
                after,
                table,
                to,
            ) && ran == after.completed(state.pending->0, table, changed);
        lemma_phases_within(
            state.begun(),
            state.due_phases(),
            state.memo,
            most,
            from,
            changed,
            after,
            table,
            to,
        );
    }
}

proof fn lemma_rounds_within<C: RelationshipTarget, B: SystemBodies<C>>(
    state: StateModel<C>,
    watermark: u64,
    most: u64,
    from: Trail<B>,
    count: nat,
    after: StateModel<C>,
    to: Trail<B>,
)
    requires
        state.rounds_lead(watermark, CommitLimit::Max(most), from, count, after, to),
        from.spent <= most,
    ensures
        from.spent <= to.spent <= most,
    decreases count,
{
    let limit = CommitLimit::Max(most);
    if count > 0 {
        let (middle, trail) = choose|middle: StateModel<C>, trail: Trail<B>|
            state.rounds_lead(watermark, limit, from, (count - 1) as nat, middle, trail)
                && #[trigger] middle.round_leads(watermark, limit, trail, after, to);
        lemma_rounds_within(state, watermark, most, from, (count - 1) as nat, middle, trail);
        if !(middle.is_settled() && middle.covers(watermark) && after == middle.promoted(watermark)
            && to == trail) {
            let (ran, then) = choose|ran: StateModel<C>, then: Trail<B>| #[trigger]
                middle.driven(limit, trail, ran, then) && ran.goes_on(
                    watermark,
                    limit,
                    then,
                    after,
                    to,
                );
            lemma_driven_within(middle, most, trail, ran, then);
        }
    }
}

/// A settle that succeeds under a limit accepted no more commits than the limit; what was
/// spent is never given back.
pub proof fn lemma_settle_stays_within_its_budget<C: RelationshipTarget, B: SystemBodies<C>>(
    state: StateModel<C>,
    watermark: u64,
    most: u64,
    from: Trail<B>,
    woken: Seq<Ticket>,
    after: StateModel<C>,
    to: Trail<B>,
)
    requires
        state.epoch_leads(watermark, CommitLimit::Max(most), from, woken, after, to),
        from.spent <= most,
    ensures
        from.spent <= to.spent <= most,
{
    let limit = CommitLimit::Max(most);
    let (count, last, trail) = choose|count: nat, last: StateModel<C>, trail: Trail<B>|
        #![trigger state.rounds_lead(watermark, limit, from, count, last, trail), last.ends(watermark, limit, trail, woken, after, to)]
        state.rounds_lead(watermark, limit, from, count, last, trail) && last.ends(
            watermark,
            limit,
            trail,
            woken,
            after,
            to,
        );
    lemma_rounds_within(state, watermark, most, from, count, last, trail);
    if !(last.is_settled() && !last.covers(watermark) && after == last.retaining() && woken.len()
        == 0 && to == trail) {
        let (ran, then) = choose|ran: StateModel<C>, then: Trail<B>| #[trigger]
            last.driven(limit, trail, ran, then) && ran.rests(
                watermark,
                limit,
                then,
                woken,
                after,
                to,
            );
        lemma_driven_within(last, most, trail, ran, then);
    }
}

/// A settle ends settled: nothing pends or runs, what was reached is retained for readers,
/// and no input that had arrived when it began is left over.
pub proof fn lemma_settle_ends_settled<C: RelationshipTarget, B: SystemBodies<C>>(
    state: StateModel<C>,
    watermark: u64,
    limit: CommitLimit,
    from: Trail<B>,
    woken: Seq<Ticket>,
    after: StateModel<C>,
    to: Trail<B>,
)
    requires
        state.epoch_leads(watermark, limit, from, woken, after, to),
    ensures
        after.pending is None,
        after.running is None,
        after.settled_revision == after.world.revision,
        covered_inputs(after.deferred, watermark).len() == 0,
        after.retained == Some(after.world.snapshot()),
        woken.len() > 0 ==> after.watchers.len() == 0,
{
    let (count, last, trail) = choose|count: nat, last: StateModel<C>, trail: Trail<B>|
        #![trigger state.rounds_lead(watermark, limit, from, count, last, trail), last.ends(watermark, limit, trail, woken, after, to)]
        state.rounds_lead(watermark, limit, from, count, last, trail) && last.ends(
            watermark,
            limit,
            trail,
            woken,
            after,
            to,
        );
    if !(last.is_settled() && !last.covers(watermark) && after == last.retaining() && woken.len()
        == 0 && to == trail) {
        let (ran, then) = choose|ran: StateModel<C>, then: Trail<B>| #[trigger]
            last.driven(limit, trail, ran, then) && ran.rests(
                watermark,
                limit,
                then,
                woken,
                after,
                to,
            );
    }
}

/// A generation opens with all inputs, goes through its phases with startup among them
/// exactly when it never ran or has to restart, and is complete under its own number.
pub proof fn lemma_generation_comes_to_its_end<C: RelationshipTarget, B: SystemBodies<C>>(
    state: StateModel<C>,
    limit: CommitLimit,
    from: Trail<B>,
    after: StateModel<C>,
    to: Trail<B>,
)
    requires
        state.generation_leads(limit, from, after, to),
    ensures
        state.pending is Some,
        after.completed == state.pending->Some_0,
        after.running is None,
        state.begun().world == state.opening(),
        state.begun().inputs.len() == 0,
        state.due_phases().contains(Phase::Startup) <==> !state.started || state.restart,
        state.due_phases().contains(Phase::Evaluate),
        state.due_phases().contains(Phase::Complete),
{
    let order = state.due_phases();
    if !state.started || state.restart {
        assert(order[0] == Phase::Startup);
        assert(order[1] == Phase::Evaluate);
        assert(order[2] == Phase::Complete);
    } else {
        assert(order[0] == Phase::Evaluate);
        assert(order[1] == Phase::Complete);
    }
}

proof fn lemma_taken_up_keeps_watchers<C: RelationshipTarget>(
    state: StateModel<C>,
    batches: Seq<BatchModel>,
)
    ensures
        taken_up(state, batches).state.watchers == state.watchers,
    decreases batches.len(),
{
    if batches.len() > 0 {
        lemma_taken_up_keeps_watchers(state, batches.drop_last());
    }
}

proof fn lemma_committing_keeps_watchers<C: RelationshipTarget>(
    state: StateModel<C>,
    memo: Map<Invocation, MemoModel>,
    runs: Seq<(Invocation, RunModel<C>)>,
    phase: Phase,
)
    ensures
        state.committing(memo, runs, phase) matches Ok((after, _)) ==> after.watchers
            == state.watchers,
    decreases runs.len(),
{
    if runs.len() > 0 {
        lemma_committing_keeps_watchers(state, memo, runs.drop_last(), phase);
    }
}

proof fn lemma_waves_keep_watchers<C: RelationshipTarget, B: SystemBodies<C>>(
    state: StateModel<C>,
    phase: Phase,
    memo: Map<Invocation, MemoModel>,
    limit: CommitLimit,
    from: Trail<B>,
    count: nat,
    after: StateModel<C>,
    after_memo: Map<Invocation, MemoModel>,
    to: Trail<B>,
)
    requires
        state.waves_lead(phase, memo, limit, from, count, after, after_memo, to),
    ensures
        after.watchers == state.watchers,
    decreases count,
{
    if count > 0 {
        let (middle, table, trail, runs, next_entity) = choose|
            middle: StateModel<C>,
            table: Map<Invocation, MemoModel>,
            trail: Trail<B>,
            runs: Seq<(Invocation, RunModel<C>)>,
            next_entity: u64,
        |
            state.waves_lead(phase, memo, limit, from, (count - 1) as nat, middle, table, trail)
                && #[trigger] middle.wave_leads(
                phase,
                table,
                limit,
                trail,
                runs,
                next_entity,
                after,
                after_memo,
                to,
            );
        lemma_waves_keep_watchers(
            state,
            phase,
            memo,
            limit,
            from,
            (count - 1) as nat,
            middle,
            table,
            trail,
        );
        lemma_taken_up_keeps_watchers(
            StateModel { systems: middle.systems_after_wave(phase), ..middle },
            middle.wave(phase, table)->Ok_0,
        );
        lemma_committing_keeps_watchers(
            middle.wave_open(phase, table, next_entity),
            table,
            runs,
            phase,
        );
    }
}

proof fn lemma_phases_keep_watchers<C: RelationshipTarget, B: SystemBodies<C>>(
    state: StateModel<C>,
    phases: Seq<Phase>,
    memo: Map<Invocation, MemoModel>,
    limit: CommitLimit,
    from: Trail<B>,
    changed: bool,
    after: StateModel<C>,
    after_memo: Map<Invocation, MemoModel>,
    to: Trail<B>,
)
    requires
        state.phases_lead(phases, memo, limit, from, changed, after, after_memo, to),
    ensures
        after.watchers == state.watchers,
    decreases phases.len(),
{
    if phases.len() > 0 {
        let (moved, middle, table, trail) = choose|
            moved: bool,
            middle: StateModel<C>,
            table: Map<Invocation, MemoModel>,
            trail: Trail<B>,
        |
            state.phases_lead(phases.drop_last(), memo, limit, from, moved, middle, table, trail)
                && #[trigger] middle.phase_leads(
                phases.last(),
                table,
                limit,
                trail,
                moved,
                changed,
                after,
                after_memo,
                to,
            );
        lemma_phases_keep_watchers(
            state,
            phases.drop_last(),
            memo,
            limit,
            from,
            moved,
            middle,
            table,
            trail,
        );
        let count = choose|count: nat| #[trigger]
            middle.waves_lead(phases.last(), table, limit, trail, count, after, after_memo, to);
        lemma_waves_keep_watchers(
            middle,
            phases.last(),
            table,
            limit,
            trail,
            count,
            after,
            after_memo,
            to,
        );
    }
}

proof fn lemma_driven_keeps_watchers<C: RelationshipTarget, B: SystemBodies<C>>(
    state: StateModel<C>,
    limit: CommitLimit,
    from: Trail<B>,
    ran: StateModel<C>,
    to: Trail<B>,
)
    requires
        state.driven(limit, from, ran, to),
    ensures
        ran.watchers == state.watchers,
{
    if state.pending is Some {
        let (after, table, changed) = choose|
            after: StateModel<C>,
            table: Map<Invocation, MemoModel>,
            changed: bool,
        |
            #![trigger state.begun().phases_lead(state.due_phases(), state.memo, limit, from, changed, after, table, to)]
            state.begun().phases_lead(
                state.due_phases(),
                state.memo,
                limit,
                from,
                changed,
                after,
                table,
                to,
            ) && ran == after.completed(state.pending->0, table, changed);
        lemma_phases_keep_watchers(
            state.begun(),
            state.due_phases(),
            state.memo,
            limit,
            from,
            changed,
            after,
            table,
            to,
        );
    }
}

proof fn lemma_rounds_keep_watchers<C: RelationshipTarget, B: SystemBodies<C>>(
    state: StateModel<C>,
    watermark: u64,
    limit: CommitLimit,
    from: Trail<B>,
    count: nat,
    after: StateModel<C>,
    to: Trail<B>,
)
    requires
        state.rounds_lead(watermark, limit, from, count, after, to),
    ensures
        after.watchers == state.watchers,
    decreases count,
{
    if count > 0 {
        let (middle, trail) = choose|middle: StateModel<C>, trail: Trail<B>|
            state.rounds_lead(watermark, limit, from, (count - 1) as nat, middle, trail)
                && #[trigger] middle.round_leads(watermark, limit, trail, after, to);
        lemma_rounds_keep_watchers(state, watermark, limit, from, (count - 1) as nat, middle, trail);
        if !(middle.is_settled() && middle.covers(watermark) && after == middle.promoted(watermark)
            && to == trail) {
            let (ran, then) = choose|ran: StateModel<C>, then: Trail<B>| #[trigger]
                middle.driven(limit, trail, ran, then) && ran.goes_on(
                    watermark,
                    limit,
                    then,
                    after,
                    to,
                );
            lemma_driven_keeps_watchers(middle, limit, trail, ran, then);
        }
    }
}

/// Whoever watches for settles is woken when one is wound up, all of them at once and in
/// order, and then watches no more; otherwise all of them go on watching.
pub proof fn lemma_watchers_are_woken_together<C: RelationshipTarget, B: SystemBodies<C>>(
    state: StateModel<C>,
    watermark: u64,
    limit: CommitLimit,
    from: Trail<B>,
    woken: Seq<Ticket>,
    after: StateModel<C>,
    to: Trail<B>,
)
    requires
        state.epoch_leads(watermark, limit, from, woken, after, to),
    ensures
        (woken == state.watchers && after.watchers.len() == 0) || (woken.len() == 0
            && after.watchers == state.watchers),
{
    let (count, last, trail) = choose|count: nat, last: StateModel<C>, trail: Trail<B>|
        #![trigger state.rounds_lead(watermark, limit, from, count, last, trail), last.ends(watermark, limit, trail, woken, after, to)]
        state.rounds_lead(watermark, limit, from, count, last, trail) && last.ends(
            watermark,
            limit,
            trail,
            woken,
            after,
            to,
        );
    lemma_rounds_keep_watchers(state, watermark, limit, from, count, last, trail);
    if !(last.is_settled() && !last.covers(watermark) && after == last.retaining() && woken.len()
        == 0 && to == trail) {
        let (ran, then) = choose|ran: StateModel<C>, then: Trail<B>| #[trigger]
            last.driven(limit, trail, ran, then) && ran.rests(
                watermark,
                limit,
                then,
                woken,
                after,
                to,
            );
        lemma_driven_keeps_watchers(last, limit, trail, ran, then);
    }
}

} // verus!
