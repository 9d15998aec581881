//! What it means that a bowl is at rest: what ran is up to date.

use crate::commit::{
    commit_outputs, commit_run, memo_after, updates_current, written_cells, CheckModel, CommitModel,
};
use crate::commit_laws::lemma_commit_recorded;
use crate::component::RelationshipTarget;
use crate::invocation::Invocation;
use crate::log_laws::{lemma_aside_recorded, lemma_recorded_trans, recorded, same_row};
use crate::memo::{deps_hold, deps_refreshed, MemoModel};
use crate::model::{Cell, WorldModel};
use crate::param::{state_deps, ParamModel, RowState};
use crate::planning_laws::lemma_own_writes_keep_memo;
use crate::query::{lemma_tracked_of, part_components, tracked_of, Dep, QueryModel};
use crate::state::engine::{lemma_followup_means_change, quiet_commits};
use crate::state::StateModel;
use crate::system::{Phase, RunModel};
use crate::world_laws::bounded;
use vstd::prelude::*;

verus! {

/// Whether all inputs are of tracked component types.
pub open spec fn of_tracked<C: RelationshipTarget>(deps: Seq<Dep>) -> bool {
    forall|i: int| 0 <= i < deps.len() ==> C::tracks((#[trigger] deps[i]).component)
}

/// Whether all inputs that runs record are of tracked component types.
pub open spec fn record_tracked<C: RelationshipTarget>(
    runs: Seq<(Invocation, RunModel<C>)>,
) -> bool {
    forall|j: int, u: int|
        0 <= j < runs.len() && 0 <= u < runs[j].1.updates.len() ==> of_tracked::<C>(
            (#[trigger] runs[j].1.updates[u]).1.deps,
        )
}

/// Whether what the memo table records of `owner`, if anything, is current.
pub open spec fn up_to_date<C: RelationshipTarget>(
    world: WorldModel<C>,
    memo: Map<Invocation, MemoModel>,
    owner: Invocation,
) -> bool {
    memo.contains_key(owner) ==> deps_hold(world, memo[owner].deps)
}

/// As long as the world's revision stands still, so do all tracked inputs.
pub proof fn lemma_still_revision_keeps_inputs<C: RelationshipTarget>(
    before: WorldModel<C>,
    after: WorldModel<C>,
    deps: Seq<Dep>,
)
    requires
        recorded(before, after),
        bounded(before),
        after.revision == before.revision,
        before.revision < u64::MAX,
        of_tracked::<C>(deps),
        deps_hold(before, deps),
    ensures
        deps_hold(after, deps),
{
    assert forall|i: int| 0 <= i < deps.len() implies (#[trigger] deps[i]).holds(after) by {
        let dep = deps[i];
        assert(dep.holds(before));
        assert(C::tracks(dep.component));
        match dep.entity {
            Some(entity) => {
                assert(same_row(before, after, dep.component, entity));
            },
            None => {
                assert(before.column(dep.component).watermark <= after.column(
                    dep.component,
                ).watermark);
            },
        }
    }
}

/// What a memo table records of an owner of `updates` is one of its updates,
/// refreshed; what it records of anyone else is what it recorded before.
proof fn lemma_memo_after_records<C: RelationshipTarget>(
    world: WorldModel<C>,
    memo: Map<Invocation, MemoModel>,
    updates: Seq<(Invocation, MemoModel)>,
    cells: Seq<Cell>,
    owner: Invocation,
)
    ensures
        ({
            let after = memo_after(world, memo, updates, cells);
            after.contains_key(owner) ==> {
                ||| memo.contains_key(owner) && after[owner] == memo[owner]
                ||| exists|u: int|
                    0 <= u < updates.len() && (#[trigger] updates[u]).0 == owner && after[owner]
                        == updates[u].1.refreshed(world, cells)
            }
        }),
        (exists|u: int| 0 <= u < updates.len() && (#[trigger] updates[u]).0 == owner) ==> exists|
            u: int,
        |
            0 <= u < updates.len() && (#[trigger] updates[u]).0 == owner && memo_after(
                world,
                memo,
                updates,
                cells,
            )[owner] == updates[u].1.refreshed(world, cells),
    decreases updates.len(),
{
    if updates.len() > 0 {
        let rest = updates.drop_last();
        let last = updates.len() - 1;
        lemma_memo_after_records(world, memo, rest, cells, owner);
        let fewer = memo_after(world, memo, rest, cells);
        let after = memo_after(world, memo, updates, cells);
        if updates[last].0 == owner {
            assert(after[owner] == updates[last].1.refreshed(world, cells));
        } else {
            assert(after.contains_key(owner) ==> fewer.contains_key(owner) && after[owner]
                == fewer[owner]);
            if exists|u: int|
                0 <= u < rest.len() && (#[trigger] rest[u]).0 == owner && fewer[owner]
                    == rest[u].1.refreshed(world, cells) {
                let u = choose|u: int|
                    0 <= u < rest.len() && (#[trigger] rest[u]).0 == owner && fewer[owner]
                        == rest[u].1.refreshed(world, cells);
                assert(updates[u] == rest[u]);
            }
            if exists|u: int| 0 <= u < updates.len() && (#[trigger] updates[u]).0 == owner {
                let u = choose|u: int| 0 <= u < updates.len() && (#[trigger] updates[u]).0 == owner;
                assert(rest[u] == updates[u]);
            }
        }
    }
}

/// A commit that moves nothing leaves up to date what was, and what it records.
proof fn lemma_quiet_commit_is_up_to_date<C: RelationshipTarget>(
    before: CommitModel<C>,
    run: RunModel<C>,
    phase: Phase,
    checks: CheckModel,
    owner: Invocation,
)
    requires
        bounded(before.world),
        before.world.revision < u64::MAX,
        commit_run(before, run, Some(phase), checks).1 matches Ok(progress)
            && !progress.needs_followup && !progress.stale,
        forall|u: int|
            0 <= u < run.updates.len() ==> of_tracked::<C>((#[trigger] run.updates[u]).1.deps),
        up_to_date(before.world, before.memo, owner) && (before.memo.contains_key(owner)
            ==> of_tracked::<C>(before.memo[owner].deps)) || exists|u: int|
            0 <= u < run.updates.len() && (#[trigger] run.updates[u]).0 == owner,
    ensures
        ({
            let after = commit_run(before, run, Some(phase), checks).0;
            &&& recorded(before.world, after.world)
            &&& after.world.revision == before.world.revision
            &&& up_to_date(after.world, after.memo, owner)
            &&& after.memo.contains_key(owner) ==> of_tracked::<C>(after.memo[owner].deps)
        }),
{
    let after = commit_run(before, run, Some(phase), checks).0;
    lemma_commit_recorded(before, run, Some(phase), checks);
    lemma_followup_means_change(before, run, Some(phase), checks);
    reveal(commit_run);
    assert(updates_current(before.world, run.updates));
    let world = commit_outputs(before.world, run.outputs, Some(phase), checks).0.reconcile_each(
        run.writes,
    );
    let cells = written_cells::<C>(run.writes);
    let memo = memo_after(world, before.memo, run.updates, cells);
    assert(world.stores == after.world.stores);
    assert(forall|dep: Dep| #[trigger] dep.holds(world) == dep.holds(after.world)) by {
        assert forall|dep: Dep| #[trigger] dep.holds(world) == dep.holds(after.world) by {
            assert(world.column(dep.component) == after.world.column(dep.component));
        }
    }
    if after.memo.contains_key(owner) {
        assert(memo.contains_key(owner) && after.memo[owner] == memo[owner]);
        lemma_memo_after_records(world, before.memo, run.updates, cells, owner);
        if exists|u: int|
            0 <= u < run.updates.len() && (#[trigger] run.updates[u]).0 == owner && memo[owner]
                == run.updates[u].1.refreshed(world, cells) {
            let u = choose|u: int|
                0 <= u < run.updates.len() && (#[trigger] run.updates[u]).0 == owner && memo[owner]
                    == run.updates[u].1.refreshed(world, cells);
            let deps = run.updates[u].1.deps;
            assert(deps_hold(before.world, deps));
            lemma_still_revision_keeps_inputs(before.world, after.world, deps);
            assert forall|i: int| 0 <= i < deps.len() implies (#[trigger] deps[i]).holds(
                world,
            ) by {
                assert(deps[i].holds(after.world));
            }
            lemma_own_writes_keep_memo(world, deps, cells);
            let kept = deps_refreshed(world, deps, cells);
            assert(after.memo[owner].deps == kept);
            assert forall|i: int| 0 <= i < kept.len() implies (#[trigger] kept[i]).holds(
                after.world,
            ) by {
                assert(kept[i].holds(world));
            }
            assert forall|i: int| 0 <= i < kept.len() implies C::tracks(
                (#[trigger] kept[i]).component,
            ) by {
                assert(kept[i] == deps[i].refreshed(world, cells));
                assert(C::tracks(deps[i].component));
            }
        } else {
            assert(before.memo.contains_key(owner) && memo[owner] == before.memo[owner]);
            lemma_still_revision_keeps_inputs(
                before.world,
                after.world,
                before.memo[owner].deps,
            );
        }
    }
}

/// Commits that move nothing leave everyone who ran up to date.
pub proof fn lemma_quiet_commits_are_up_to_date<C: RelationshipTarget>(
    before: CommitModel<C>,
    runs: Seq<(Invocation, RunModel<C>)>,
    phase: Phase,
    checks: CheckModel,
)
    requires
        bounded(before.world),
        before.world.revision < u64::MAX,
        quiet_commits(before, runs, phase, checks) is Some,
        record_tracked(runs),
    ensures
        ({
            let after = quiet_commits(before, runs, phase, checks)->0;
            &&& recorded(before.world, after.world)
            &&& after.world.revision == before.world.revision
            &&& forall|j: int, u: int|
                0 <= j < runs.len() && 0 <= u < runs[j].1.updates.len() ==> up_to_date(
                    after.world,
                    after.memo,
                    (#[trigger] runs[j].1.updates[u]).0,
                ) && (after.memo.contains_key(runs[j].1.updates[u].0) ==> of_tracked::<C>(
                    after.memo[runs[j].1.updates[u].0].deps,
                ))
        }),
    decreases runs.len(),
{
    if runs.len() == 0 {
        lemma_aside_recorded(before.world, before.world);
    } else {
        let rest = runs.drop_last();
        let last = runs.last().1;
        assert forall|j: int, u: int|
            0 <= j < rest.len() && 0 <= u < rest[j].1.updates.len() implies of_tracked::<C>(
            (#[trigger] rest[j].1.updates[u]).1.deps,
        ) by {
            assert(of_tracked::<C>(runs[j].1.updates[u].1.deps));
        }
        lemma_quiet_commits_are_up_to_date(before, rest, phase, checks);
        let middle = quiet_commits(before, rest, phase, checks)->0;
        let after = quiet_commits(before, runs, phase, checks)->0;
        assert(after == commit_run(middle, last, Some(phase), checks).0);
        assert(bounded(middle.world));
        assert forall|u: int| 0 <= u < last.updates.len() implies of_tracked::<C>(
            (#[trigger] last.updates[u]).1.deps,
        ) by {
            assert(of_tracked::<C>(runs[runs.len() - 1].1.updates[u].1.deps));
        }
        lemma_commit_recorded(middle, last, Some(phase), checks);
        lemma_followup_means_change(middle, last, Some(phase), checks);
        lemma_recorded_trans(before.world, middle.world, after.world);
        assert forall|j: int, u: int|
            0 <= j < runs.len() && 0 <= u < runs[j].1.updates.len() implies up_to_date(
            after.world,
            after.memo,
            (#[trigger] runs[j].1.updates[u]).0,
        ) && (after.memo.contains_key(runs[j].1.updates[u].0) ==> of_tracked::<C>(
            after.memo[runs[j].1.updates[u].0].deps,
        )) by {
            let owner = runs[j].1.updates[u].0;
            if j < rest.len() {
                assert(rest[j].1.updates[u].0 == owner);
            } else {
                assert(last.updates[u].0 == owner);
            }
            lemma_quiet_commit_is_up_to_date(middle, last, phase, checks, owner);
        }
    }
}

/// At the end of a phase everyone who ran in its last wave is up to date: what
/// they are recorded to have observed is what there is to observe, so planning
/// would pass them over.
pub proof fn lemma_last_wave_is_up_to_date<C: RelationshipTarget>(
    before: StateModel<C>,
    phase: Phase,
    memo: Map<Invocation, MemoModel>,
    runs: Seq<(Invocation, RunModel<C>)>,
    next_entity: u64,
    after: StateModel<C>,
    after_memo: Map<Invocation, MemoModel>,
)
    requires
        before.closes(phase, memo, runs, next_entity, after, after_memo),
        bounded(before.world),
        before.world.revision < u64::MAX,
        record_tracked(runs),
    ensures
        forall|j: int, u: int|
            0 <= j < runs.len() && 0 <= u < runs[j].1.updates.len() ==> up_to_date(
                after.world,
                after_memo,
                (#[trigger] runs[j].1.updates[u]).0,
            ),
{
    let start = CommitModel {
        world: WorldModel { next_entity, ..before.world },
        memo,
        held: before.held,
    };
    assert(bounded(start.world));
    lemma_quiet_commits_are_up_to_date(start, runs, phase, after.checks());
}

/// Unless it takes an outer join, what a system observes of its rows is of
/// tracked component types.
pub proof fn lemma_inputs_are_tracked<C: RelationshipTarget>(
    world: WorldModel<C>,
    params: Seq<ParamModel>,
    state: Seq<RowState>,
)
    requires
        state.len() <= params.len(),
        forall|i: int| 0 <= i < params.len() ==> !((#[trigger] params[i]) is Outer),
    ensures
        of_tracked::<C>(state_deps(world, params, state)),
    decreases state.len(),
{
    if state.len() > 0 {
        let rest = state.drop_last();
        lemma_inputs_are_tracked(world, params, rest);
        let before = state_deps(world, params, rest);
        let all = state_deps(world, params, state);
        let last = params[state.len() - 1].deps(world, state.last());
        assert(all =~= before + last);
        assert forall|i: int| 0 <= i < all.len() implies C::tracks((#[trigger] all[i]).component) by {
            if i < before.len() {
                assert(all[i] == before[i]);
            } else {
                assert(all[i] == last[i - before.len()]);
                match (params[state.len() - 1], state.last()) {
                    (ParamModel::Query(query), RowState::Row(entity)) => {
                        lemma_row_inputs_are_tracked::<C>(query);
                        assert(C::tracks(query.tracked_inputs::<C>()[i - before.len()]));
                    },
                    _ => {},
                }
            }
        }
    }
}

proof fn lemma_row_inputs_are_tracked<C: RelationshipTarget>(query: QueryModel)
    ensures
        forall|i: int|
            0 <= i < query.tracked_inputs::<C>().len() ==> C::tracks(
                #[trigger] query.tracked_inputs::<C>()[i],
            ),
{
    let a = part_components(query.parts);
    let b = crate::query::observed_components(query.filters);
    lemma_tracked_of::<C>(a);
    lemma_tracked_of::<C>(b);
    let all = query.tracked_inputs::<C>();
    assert forall|i: int| 0 <= i < all.len() implies C::tracks(#[trigger] all[i]) by {
        if i < tracked_of::<C>(a).len() {
            assert(all[i] == tracked_of::<C>(a)[i]);
        } else {
            assert(all[i] == tracked_of::<C>(b)[i - tracked_of::<C>(a).len()]);
        }
    }
}

} // verus!
