//! What holds of every commit.

use crate::commands::{apply_ops, OpModel};
use crate::commit::{
    commit_output, commit_outputs, commit_run, delivered, drained, held_back, immediate, memo_after,
    replace_outputs, updates_current, written_cells, CheckModel, CommitModel,
};
use crate::component::{Component, RelationshipTarget};
use crate::entity::Entity;
use crate::invocation::Invocation;
use crate::log_laws::{
    lemma_apply_ops_recorded, lemma_aside_recorded, lemma_flush_recorded, lemma_give_up_recorded,
    lemma_reconcile_recorded, lemma_recorded_trans, recorded,
};
use crate::memo::MemoModel;
use crate::model::{outputs, WorldModel};
use crate::system::{OutputModel, Phase, RunModel};
use vstd::prelude::*;

verus! {

proof fn lemma_replace_recorded<C: RelationshipTarget>(
    world: WorldModel<C>,
    output: OutputModel<C>,
    defer: bool,
)
    ensures
        recorded(world, replace_outputs(world, output, defer).0),
{
    let previous = outputs(world.owned, output.owner);
    let taken = WorldModel { owned: world.owned.remove(output.owner), ..world };
    let applied = apply_ops(taken, immediate(output.ops, defer), output.owner).0;
    let flushed = applied.flush();
    let finished = flushed.finish_spawns(output.owner);
    lemma_aside_recorded(world, taken);
    lemma_apply_ops_recorded(taken, immediate(output.ops, defer), output.owner);
    lemma_recorded_trans(world, taken, applied);
    lemma_flush_recorded(applied);
    lemma_recorded_trans(world, applied, flushed);
    lemma_aside_recorded(flushed, finished);
    lemma_recorded_trans(world, flushed, finished);
    lemma_give_up_recorded(finished, output.owner, previous);
    lemma_recorded_trans(world, finished, finished.remove_stale(output.owner, previous));
}

proof fn lemma_commit_outputs_recorded<C: RelationshipTarget>(
    world: WorldModel<C>,
    list: Seq<OutputModel<C>>,
    phase: Option<Phase>,
    checks: CheckModel,
)
    ensures
        recorded(world, commit_outputs(world, list, phase, checks).0),
    decreases list.len(),
{
    if list.len() == 0 {
        lemma_aside_recorded(world, world);
    } else {
        lemma_commit_outputs_recorded(world, list.drop_last(), phase, checks);
        let done = commit_outputs(world, list.drop_last(), phase, checks).0;
        let defer = phase == Some(Phase::Settle);
        let replaced = replace_outputs(done, list.last(), defer).0;
        lemma_replace_recorded(done, list.last(), defer);
        lemma_recorded_trans(world, done, replaced);
        lemma_aside_recorded(replaced, drained(replaced));
        lemma_recorded_trans(world, replaced, drained(replaced));
        reveal(commit_output);
    }
}

/// A commit is recorded: every row it changed is in the write log, and the
/// watermark of every tracked store it changed has moved. Planning can therefore
/// tell what to look at again.
pub proof fn lemma_commit_recorded<C: RelationshipTarget>(
    before: CommitModel<C>,
    run: RunModel<C>,
    phase: Option<Phase>,
    checks: CheckModel,
)
    ensures
        recorded(before.world, commit_run(before, run, phase, checks).0.world),
{
    reveal(commit_run);
    if !updates_current(before.world, run.updates) {
        let world = before.world.reconcile_each(run.writes);
        lemma_reconcile_recorded(before.world, run.writes);
        lemma_aside_recorded(world, delivered(world));
        lemma_recorded_trans(before.world, world, delivered(world));
    } else {
        let committed = commit_outputs(before.world, run.outputs, phase, checks).0;
        lemma_commit_outputs_recorded(before.world, run.outputs, phase, checks);
        let world = committed.reconcile_each(run.writes);
        lemma_reconcile_recorded(committed, run.writes);
        lemma_recorded_trans(before.world, committed, world);
        let after = delivered(WorldModel { removed: Seq::<Entity>::empty(), ..world });
        lemma_aside_recorded(world, after);
        lemma_recorded_trans(before.world, world, after);
    }
}

/// A run whose inputs went stale leaves no output behind, and the memo table as
/// it was: its row is planned again.
pub proof fn lemma_stale_run_is_discarded<C: RelationshipTarget>(
    before: CommitModel<C>,
    run: RunModel<C>,
    phase: Option<Phase>,
    checks: CheckModel,
)
    requires
        !updates_current(before.world, run.updates),
    ensures
        ({
            let after = commit_run(before, run, phase, checks);
            &&& after.0.memo == before.memo
            &&& after.0.held == before.held
            &&& after.0.world == delivered(before.world.reconcile_each(run.writes))
            &&& after.1 matches Ok(progress) && progress.stale
        }),
{
    reveal(commit_run);
}

/// A run that read nothing stale and was not refused is recorded in the memo
/// table, unless one of its rows was removed by the commit.
pub proof fn lemma_committed_run_is_memoized<C: RelationshipTarget>(
    before: CommitModel<C>,
    run: RunModel<C>,
    phase: Option<Phase>,
    checks: CheckModel,
    owner: Invocation,
)
    requires
        updates_current(before.world, run.updates),
        commit_run(before, run, phase, checks).1 is Ok,
        exists|i: int| 0 <= i < run.updates.len() && (#[trigger] run.updates[i]).0 == owner,
    ensures
        ({
            let after = commit_run(before, run, phase, checks).0;
            let world = commit_outputs(before.world, run.outputs, phase, checks).0.reconcile_each(
                run.writes,
            );
            after.memo.contains_key(owner) <==> world.removed.len() == 0 || !owner.touched_by(
                world.removed,
            )
        }),
{
    reveal(commit_run);
    let world = commit_outputs(before.world, run.outputs, phase, checks).0.reconcile_each(
        run.writes,
    );
    let i = choose|i: int| 0 <= i < run.updates.len() && (#[trigger] run.updates[i]).0 == owner;
    lemma_memo_after_contains(
        world,
        before.memo,
        run.updates,
        written_cells::<C>(run.writes),
        i,
    );
}

proof fn lemma_memo_after_contains<C: RelationshipTarget>(
    world: WorldModel<C>,
    memo: Map<Invocation, MemoModel>,
    updates: Seq<(Invocation, MemoModel)>,
    cells: Seq<crate::model::Cell>,
    i: int,
)
    requires
        0 <= i < updates.len(),
    ensures
        memo_after(world, memo, updates, cells).contains_key(updates[i].0),
    decreases updates.len(),
{
    if i < updates.len() - 1 {
        lemma_memo_after_contains(world, memo, updates.drop_last(), cells, i);
    }
}

/// A settle-phase commit cannot drive its own settle forward: nothing that it
/// applies at once inserts or spawns.
pub proof fn lemma_settle_commit_only_removes<C: Component>(ops: Seq<OpModel<C>>)
    ensures
        forall|i: int|
            0 <= i < immediate(ops, true).len() ==> !(#[trigger] immediate(
                ops,
                true,
            )[i]).deferred(),
    decreases ops.len(),
{
    if ops.len() > 0 {
        lemma_settle_commit_only_removes(ops.drop_last());
        let rest = immediate(ops.drop_last(), true);
        let all = immediate(ops, true);
        assert forall|i: int| 0 <= i < all.len() implies !(#[trigger] all[i]).deferred() by {
            if i < rest.len() {
                assert(all[i] == rest[i]);
            }
        }
    }
}

/// Every operation of a settle-phase buffer is either applied or held back, and
/// outside that phase all of them are applied.
pub proof fn lemma_nothing_is_lost<C: Component>(ops: Seq<OpModel<C>>, owner: Invocation)
    ensures
        immediate(ops, true).len() + held_back(ops, owner, true).len() == ops.len(),
        immediate(ops, false) == ops,
        held_back(ops, owner, false).len() == 0,
    decreases ops.len(),
{
    if ops.len() > 0 {
        lemma_nothing_is_lost(ops.drop_last(), owner);
        assert(immediate(ops, false) =~= ops);
    } else {
        assert(immediate(ops, false) =~= ops);
    }
}

} // verus!
