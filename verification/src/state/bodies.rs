//! Running what was planned: the bodies of systems, and the hooks around them.

use crate::commands::{BufferModel, Commands, EntityAllocator};
use crate::component::RelationshipTarget;
use crate::declare::Anything;
use crate::entity::Entity;
use crate::evaluation::PlannedBatch;
use crate::invocation::{Invocation, SystemId, SystemInvocation};
use crate::memo::{planned_view, MemoModel, PlannedInvocation, PlannedModel};
use crate::model::WorldModel;
use crate::param::RowState;
use crate::system::{
    finish_invocation, outputs_view, permitted, OutputModel, RunModel, SystemOutput, SystemRun,
    Wrapper,
};
use crate::world::{write_facts, World};
use vstd::prelude::*;

verus! {

/// What the body of a system is handed: the rows of the invocation, one state per
/// parameter, the snapshot to read, an empty buffer with the invocation's spawn
/// slots, and the next free entity id.
#[verifier::ext_equal]
#[verifier::reject_recursive_types(C)]
pub struct CallModel<C: RelationshipTarget> {
    pub system: SystemId,
    pub rows: Seq<RowState>,
    pub snapshot: WorldModel<C>,
    pub buffer: BufferModel<C>,
    pub ids: u64,
}

/// What the body of a system leaves: the filled buffer, the next free entity id,
/// and the values it wrote in place.
#[verifier::ext_equal]
#[verifier::reject_recursive_types(C)]
pub struct ReplyModel<C: RelationshipTarget> {
    pub filled: BufferModel<C>,
    pub ids: u64,
    pub writes: Seq<(Entity, C::Model)>,
}

/// What a hook is handed: which hook of which system it is, an empty buffer with
/// the system's spawn slots, and the next free entity id. `position` counts the
/// hooks around the system from the innermost out.
#[verifier::ext_equal]
#[verifier::reject_recursive_types(C)]
pub struct HookCall<C: RelationshipTarget> {
    pub system: SystemId,
    pub wrapper: Wrapper,
    pub position: usize,
    pub buffer: BufferModel<C>,
    pub ids: u64,
}

/// The bodies of a bowl's systems, and the hooks around them.
///
/// A body reads the snapshot and fills a command buffer. It returns the values
/// that it left in the rows it held for exclusive access. An implementation says
/// with [`SystemBodies::runs`] and [`SystemBodies::hooks`] what a call can do, as
/// far as it promises anything; everything that runs bodies is stated over them.
pub trait SystemBodies<C: RelationshipTarget>: Sized {
    /// Whether a run that is handed `call` can leave `reply`, and turn the bodies
    /// from `before` into `after`.
    open spec fn runs(before: Self, call: CallModel<C>, after: Self, reply: ReplyModel<C>) -> bool {
        true
    }

    /// Whether a hook that is handed `call` can leave the buffer `filled` and the
    /// next free id `ids`, and turn the bodies from `before` into `after`.
    open spec fn hooks(
        before: Self,
        call: HookCall<C>,
        after: Self,
        filled: BufferModel<C>,
        ids: u64,
    ) -> bool {
        true
    }

    /// Runs a system for one combination of rows: one state per parameter.
    fn run(
        &mut self,
        system: SystemId,
        rows: &Vec<RowState>,
        snapshot: &World<C>,
        commands: &mut Commands<C, Anything>,
        allocator: &mut EntityAllocator,
    ) -> (writes: Vec<(Entity, C)>)
        requires
            snapshot.wf(),
        ensures
            Self::runs(
                *old(self),
                (CallModel {
                    system,
                    rows: rows@,
                    snapshot: snapshot@,
                    buffer: old(commands)@,
                    ids: old(allocator)@,
                }),
                *final(self),
                (ReplyModel {
                    filled: final(commands)@,
                    ids: final(allocator)@,
                    writes: write_facts(writes@),
                }),
            ),
    ;

    /// Runs a hook of a system.
    fn hook(
        &mut self,
        system: SystemId,
        wrapper: Wrapper,
        position: usize,
        commands: &mut Commands<C, Anything>,
        allocator: &mut EntityAllocator,
    )
        ensures
            Self::hooks(
                *old(self),
                (HookCall {
                    system,
                    wrapper,
                    position,
                    buffer: old(commands)@,
                    ids: old(allocator)@,
                }),
                *final(self),
                final(commands)@,
                final(allocator)@,
            ),
    ;
}

/// An empty buffer of `owner`: it will reuse the owner's spawn slots.
pub open spec fn fresh_buffer<C: RelationshipTarget>(
    snapshot: WorldModel<C>,
    owner: Invocation,
) -> BufferModel<C> {
    BufferModel { ops: Seq::empty(), slots: snapshot.slots(owner), cursor: 0 }
}

/// What the memo table records of planned invocations once they have run.
pub open spec fn updates_of(planned: Seq<PlannedModel>, revision: u64) -> Seq<
    (Invocation, MemoModel),
> {
    planned.map_values(
        |one: PlannedModel|
            (one.owner, MemoModel { deps: one.deps, planned_revision: revision }),
    )
}

/// The owners of planned invocations.
pub open spec fn owners_of(planned: Seq<PlannedModel>) -> Seq<Invocation> {
    planned.map_values(|one: PlannedModel| one.owner)
}

/// The owners of outputs.
pub open spec fn output_owners<C: RelationshipTarget>(outputs: Seq<OutputModel<C>>) -> Seq<
    Invocation,
> {
    outputs.map_values(|output: OutputModel<C>| output.owner)
}

/// Whether the body of a planned invocation ran on `before`: it was handed the
/// invocation's rows and an empty buffer, what it filled is the output, and what
/// it wrote in place counts as far as it had exclusive access.
pub open spec fn invocation_ran<C: RelationshipTarget, B: SystemBodies<C>>(
    before: B,
    planned: PlannedModel,
    snapshot: WorldModel<C>,
    ids: u64,
    after: B,
    next: u64,
    output: OutputModel<C>,
    writes: Seq<(Entity, C::Model)>,
) -> bool {
    &&& output.owner == planned.owner
    &&& exists|reply: ReplyModel<C>| #[trigger]
        B::runs(
            before,
            CallModel {
                system: planned.owner.system,
                rows: planned.state,
                snapshot,
                buffer: fresh_buffer(snapshot, planned.owner),
                ids,
            },
            after,
            reply,
        ) && reply.ids == next && output.ops == reply.filled.ops && writes == permitted::<C>(
            planned.access,
            reply.writes,
        )
}

/// Whether the bodies of planned invocations ran, one after the other and once
/// each: the bodies went from `before` to `after`, the next free id from `ids` to
/// `next`, and this is what they left.
pub open spec fn invocations_ran<C: RelationshipTarget, B: SystemBodies<C>>(
    before: B,
    planned: Seq<PlannedModel>,
    snapshot: WorldModel<C>,
    ids: u64,
    after: B,
    next: u64,
    outputs: Seq<OutputModel<C>>,
    writes: Seq<(Entity, C::Model)>,
) -> bool
    decreases planned.len(),
{
    if planned.len() == 0 {
        after == before && next == ids && outputs.len() == 0 && writes.len() == 0
    } else {
        outputs.len() > 0 && exists|middle: B, at: u64, mine: Seq<(Entity, C::Model)>|
            #[trigger] invocation_ran(
                middle,
                planned.last(),
                snapshot,
                at,
                after,
                next,
                outputs.last(),
                mine,
            ) && mine.len() <= writes.len() && writes.skip(writes.len() - mine.len()) == mine
                && invocations_ran(
                before,
                planned.drop_last(),
                snapshot,
                ids,
                middle,
                at,
                outputs.drop_last(),
                writes.take(writes.len() - mine.len()),
            )
    }
}

/// Whether a hook of a system ran on `before`: it was handed an empty buffer, and
/// what it filled is the output, which belongs to the system.
pub open spec fn hook_ran<C: RelationshipTarget, B: SystemBodies<C>>(
    before: B,
    system: SystemId,
    wrapper: Wrapper,
    position: usize,
    snapshot: WorldModel<C>,
    ids: u64,
    after: B,
    next: u64,
    output: OutputModel<C>,
) -> bool {
    let owner = Invocation { system, keys: Seq::empty() };
    &&& output.owner == owner
    &&& exists|filled: BufferModel<C>| #[trigger]
        B::hooks(
            before,
            HookCall {
                system,
                wrapper,
                position,
                buffer: fresh_buffer(snapshot, owner),
                ids,
            },
            after,
            filled,
            next,
        ) && output.ops == filled.ops
}

/// Whether the hooks at `positions` ran, one after the other and once each.
pub open spec fn hooks_ran<C: RelationshipTarget, B: SystemBodies<C>>(
    before: B,
    system: SystemId,
    wrapper: Wrapper,
    positions: Seq<usize>,
    snapshot: WorldModel<C>,
    ids: u64,
    after: B,
    next: u64,
    outputs: Seq<OutputModel<C>>,
) -> bool
    decreases positions.len(),
{
    if positions.len() == 0 {
        after == before && next == ids && outputs.len() == 0
    } else {
        outputs.len() > 0 && exists|middle: B, at: u64|
            #[trigger] hook_ran(
                middle,
                system,
                wrapper,
                positions.last(),
                snapshot,
                at,
                after,
                next,
                outputs.last(),
            ) && hooks_ran(
                before,
                system,
                wrapper,
                positions.drop_last(),
                snapshot,
                ids,
                middle,
                at,
                outputs.drop_last(),
            )
    }
}

/// Where hooks of one sort stand among the hooks around a system, from the
/// innermost out.
pub open spec fn hook_positions(wrappers: Seq<Wrapper>, wrapper: Wrapper) -> Seq<usize>
    decreases wrappers.len(),
{
    if wrappers.len() == 0 {
        Seq::empty()
    } else {
        let rest = hook_positions(wrappers.drop_last(), wrapper);
        if wrappers.last() == wrapper {
            rest.push((wrappers.len() - 1) as usize)
        } else {
            rest
        }
    }
}

/// Where hooks of one sort stand among the hooks around a system, from the
/// outermost in.
pub open spec fn outer_positions(wrappers: Seq<Wrapper>, wrapper: Wrapper) -> Seq<usize>
    decreases wrappers.len(),
{
    if wrappers.len() == 0 {
        Seq::empty()
    } else {
        let rest = outer_positions(wrappers.drop_last(), wrapper);
        if wrappers.last() == wrapper {
            seq![(wrappers.len() - 1) as usize] + rest
        } else {
            rest
        }
    }
}

/// `count` times the same owner.
pub open spec fn repeated(owner: Invocation, count: nat) -> Seq<Invocation> {
    Seq::new(count, |i: int| owner)
}

/// Who owns the outputs of a batch: the start hooks, then each invocation, then
/// the completion hooks, if there was anything to complete.
pub open spec fn batch_owners(
    system: SystemId,
    wrappers: Seq<Wrapper>,
    planned: Seq<PlannedModel>,
) -> Seq<Invocation> {
    let hook = Invocation { system, keys: Seq::empty() };
    let opened = repeated(hook, outer_positions(wrappers, Wrapper::Start).len()) + owners_of(
        planned,
    );
    if opened.len() == 0 {
        opened
    } else {
        opened + repeated(hook, hook_positions(wrappers, Wrapper::Complete).len())
    }
}

/// Whether a batch ran: its start hooks from the outermost in, then every one of
/// its invocations, then its completion hooks from the innermost out, if there was
/// anything to complete. Each ran once, and the outputs stand in that order.
pub open spec fn batch_ran<C: RelationshipTarget, B: SystemBodies<C>>(
    before: B,
    system: SystemId,
    wrappers: Seq<Wrapper>,
    planned: Seq<PlannedModel>,
    snapshot: WorldModel<C>,
    ids: u64,
    after: B,
    next: u64,
    run: RunModel<C>,
) -> bool {
    let starts = outer_positions(wrappers, Wrapper::Start);
    let completes = hook_positions(wrappers, Wrapper::Complete);
    let first = starts.len() as int;
    let opened = first + planned.len();
    &&& opened <= run.outputs.len()
    &&& exists|started: B, at: u64, done: B, then_at: u64|
        #![trigger hooks_ran(before, system, Wrapper::Start, starts, snapshot, ids, started, at, run.outputs.take(first)), invocations_ran(started, planned, snapshot, at, done, then_at, run.outputs.subrange(first, opened), run.writes)]
        hooks_ran(
            before,
            system,
            Wrapper::Start,
            starts,
            snapshot,
            ids,
            started,
            at,
            run.outputs.take(first),
        ) && invocations_ran(
            started,
            planned,
            snapshot,
            at,
            done,
            then_at,
            run.outputs.subrange(first, opened),
            run.writes,
        ) && if opened == 0 {
            after == done && next == then_at && run.outputs.len() == 0
        } else {
            hooks_ran(
                done,
                system,
                Wrapper::Complete,
                completes,
                snapshot,
                then_at,
                after,
                next,
                run.outputs.skip(opened),
            )
        }
}

/// Runs planned invocations one after the other. Each invocation has one output of
/// its own, what its body wrote, and is recorded with what it observed.
pub fn run_invocations<C: RelationshipTarget, B: SystemBodies<C>>(
    bodies: &mut B,
    invocations: Vec<PlannedInvocation>,
    snapshot: &World<C>,
    allocator: &mut EntityAllocator,
) -> (run: SystemRun<C>)
    requires
        snapshot.wf(),
    ensures
        run@.completed,
        run@.updates == updates_of(planned_view(invocations@), snapshot@.revision),
        output_owners(run@.outputs) == owners_of(planned_view(invocations@)),
        invocations_ran(
            *old(bodies),
            planned_view(invocations@),
            snapshot@,
            old(allocator)@,
            *final(bodies),
            final(allocator)@,
            run@.outputs,
            run@.writes,
        ),
{
    let ghost all = planned_view(invocations@);
    let ghost total = invocations@.len();
    let ghost first = *bodies;
    let ghost ids = allocator@;
    let revision: u64 = snapshot.revision_raw();
    let mut rest = invocations;
    let mut run: SystemRun<C> = SystemRun::empty();
    let ghost mut done: int = 0;
    assert(run@.updates =~= updates_of(all.take(0), revision));
    assert(output_owners(run@.outputs) =~= owners_of(all.take(0)));
    while rest.len() > 0
        invariant
            0 <= done,
            done + rest@.len() == total,
            all.len() == total,
            snapshot.wf(),
            revision == snapshot@.revision,
            planned_view(rest@) =~= all.skip(done),
            run@.updates == updates_of(all.take(done), revision),
            output_owners(run@.outputs) == owners_of(all.take(done)),
            invocations_ran(
                first,
                all.take(done),
                snapshot@,
                ids,
                *bodies,
                allocator@,
                run@.outputs,
                run@.writes,
            ),
        decreases rest@.len(),
    {
        let ghost held = rest@;
        let ghost before = run@;
        let ghost middle = *bodies;
        let ghost at = allocator@;
        let planned = rest.remove(0);
        proof {
            assert(planned_view(held)[0] == all.skip(done)[0]);
            assert(planned@ == all[done]);
            assert(planned_view(rest@) =~= planned_view(held).drop_first());
            assert(all.skip(done + 1) =~= all.skip(done).drop_first());
        }
        let mut commands: Commands<C, Anything> = Commands::new(
            snapshot.spawn_slots(&planned.owner),
        );
        assert(commands@ == fresh_buffer(snapshot@, all[done].owner));
        let writes = bodies.run(
            planned.owner.system,
            &planned.state,
            snapshot,
            &mut commands,
            allocator,
        );
        let ghost reply = ReplyModel::<C> {
            filled: commands@,
            ids: allocator@,
            writes: write_facts(writes@),
        };
        let one = finish_invocation(planned, revision, commands, writes);
        let ghost mine = one@.writes;
        let ghost output = one@.outputs[0];
        run.absorb(one);
        proof {
            assert(invocation_ran(
                middle,
                all[done],
                snapshot@,
                at,
                *bodies,
                allocator@,
                output,
                mine,
            )) by {
                assert(B::runs(
                    middle,
                    CallModel {
                        system: all[done].owner.system,
                        rows: all[done].state,
                        snapshot: snapshot@,
                        buffer: fresh_buffer(snapshot@, all[done].owner),
                        ids: at,
                    },
                    *bodies,
                    reply,
                ));
            }
            let more = all.take(done + 1);
            assert(more =~= all.take(done).push(all[done]));
            assert(more.drop_last() =~= all.take(done));
            assert(run@.outputs =~= before.outputs.push(output));
            assert(run@.outputs.drop_last() =~= before.outputs);
            let cut = run@.writes.len() - mine.len();
            assert(run@.writes.skip(cut) =~= mine);
            assert(run@.writes.take(cut) =~= before.writes);
            assert(invocation_ran(
                middle,
                more.last(),
                snapshot@,
                at,
                *bodies,
                allocator@,
                run@.outputs.last(),
                mine,
            ));
            assert(invocations_ran(
                first,
                more,
                snapshot@,
                ids,
                *bodies,
                allocator@,
                run@.outputs,
                run@.writes,
            ));
            assert(run@.updates =~= updates_of(more, revision));
            assert(output_owners(run@.outputs) =~= output_owners(before.outputs).push(
                all[done].owner,
            ));
            assert(owners_of(more) =~= owners_of(all.take(done)).push(all[done].owner));
            done = done + 1;
        }
    }
    assert(all.take(done) =~= all);
    run.completed = true;
    run
}

/// Runs a hook of a system. Its output belongs to the system, without row keys.
pub fn run_hook<C: RelationshipTarget, B: SystemBodies<C>>(
    bodies: &mut B,
    system: SystemId,
    wrapper: Wrapper,
    position: usize,
    snapshot: &World<C>,
    allocator: &mut EntityAllocator,
) -> (output: SystemOutput<C>)
    requires
        snapshot.wf(),
    ensures
        hook_ran(
            *old(bodies),
            system,
            wrapper,
            position,
            snapshot@,
            old(allocator)@,
            *final(bodies),
            final(allocator)@,
            output@,
        ),
{
    let keys: Vec<Entity> = Vec::new();
    let owner = SystemInvocation::new(system, keys);
    assert(owner@.keys =~= Seq::<Entity>::empty());
    let mut commands: Commands<C, Anything> = Commands::new(snapshot.spawn_slots(&owner));
    assert(commands@ == fresh_buffer(snapshot@, owner@));
    bodies.hook(system, wrapper, position, &mut commands, allocator);
    SystemOutput { owner, commands: commands.take() }
}

proof fn lemma_hooks_own<C: RelationshipTarget, B: SystemBodies<C>>(
    before: B,
    system: SystemId,
    wrapper: Wrapper,
    positions: Seq<usize>,
    snapshot: WorldModel<C>,
    ids: u64,
    after: B,
    next: u64,
    outputs: Seq<OutputModel<C>>,
)
    requires
        hooks_ran(before, system, wrapper, positions, snapshot, ids, after, next, outputs),
    ensures
        output_owners(outputs) == repeated(
            Invocation { system, keys: Seq::empty() },
            positions.len(),
        ),
    decreases positions.len(),
{
    let hook = Invocation { system, keys: Seq::empty() };
    if positions.len() == 0 {
        assert(output_owners(outputs) =~= repeated(hook, 0));
    } else {
        let (middle, at) = choose|middle: B, at: u64|
            #[trigger] hook_ran(
                middle,
                system,
                wrapper,
                positions.last(),
                snapshot,
                at,
                after,
                next,
                outputs.last(),
            ) && hooks_ran(
                before,
                system,
                wrapper,
                positions.drop_last(),
                snapshot,
                ids,
                middle,
                at,
                outputs.drop_last(),
            );
        lemma_hooks_own(
            before,
            system,
            wrapper,
            positions.drop_last(),
            snapshot,
            ids,
            middle,
            at,
            outputs.drop_last(),
        );
        assert(output_owners(outputs) =~= output_owners(outputs.drop_last()).push(hook));
        assert(repeated(hook, positions.len()) =~= repeated(
            hook,
            positions.drop_last().len(),
        ).push(hook));
    }
}

/// Another hook ran.
proof fn lemma_hook_ran_on<C: RelationshipTarget, B: SystemBodies<C>>(
    before: B,
    system: SystemId,
    wrapper: Wrapper,
    positions: Seq<usize>,
    snapshot: WorldModel<C>,
    ids: u64,
    middle: B,
    at: u64,
    outputs: Seq<OutputModel<C>>,
    position: usize,
    after: B,
    next: u64,
    output: OutputModel<C>,
)
    requires
        hooks_ran(before, system, wrapper, positions, snapshot, ids, middle, at, outputs),
        hook_ran(middle, system, wrapper, position, snapshot, at, after, next, output),
    ensures
        hooks_ran(
            before,
            system,
            wrapper,
            positions.push(position),
            snapshot,
            ids,
            after,
            next,
            outputs.push(output),
        ),
{
    let more = positions.push(position);
    let all = outputs.push(output);
    assert(more.drop_last() =~= positions);
    assert(all.drop_last() =~= outputs);
    assert(hook_ran(
        middle,
        system,
        wrapper,
        more.last(),
        snapshot,
        at,
        after,
        next,
        all.last(),
    ));
}

/// Where hooks of one sort stand among the hooks around a system, from the
/// outermost in: the order of start hooks.
pub fn outer_hooks(wrappers: &Vec<Wrapper>, wrapper: Wrapper) -> (positions: Vec<usize>)
    ensures
        positions@ == outer_positions(wrappers@, wrapper),
{
    let ghost all = outer_positions(wrappers@, wrapper);
    let mut positions: Vec<usize> = Vec::new();
    let mut i: usize = wrappers.len();
    assert(wrappers@.take(wrappers@.len() as int) =~= wrappers@);
    while i > 0
        invariant
            i <= wrappers@.len(),
            all =~= positions@ + outer_positions(wrappers@.take(i as int), wrapper),
        decreases i,
    {
        i = i - 1;
        assert(wrappers@.take(i + 1).drop_last() =~= wrappers@.take(i as int));
        if wrappers[i] == wrapper {
            positions.push(i);
        }
    }
    assert(wrappers@.take(0) =~= Seq::<Wrapper>::empty());
    assert(positions@ =~= all);
    positions
}

/// Where hooks of one sort stand among the hooks around a system, from the
/// innermost out: the order of completion hooks.
pub fn inner_hooks(wrappers: &Vec<Wrapper>, wrapper: Wrapper) -> (positions: Vec<usize>)
    ensures
        positions@ == hook_positions(wrappers@, wrapper),
{
    let mut positions: Vec<usize> = Vec::new();
    let mut i: usize = 0;
    assert(wrappers@.take(0) =~= Seq::<Wrapper>::empty());
    while i < wrappers.len()
        invariant
            i <= wrappers@.len(),
            positions@ == hook_positions(wrappers@.take(i as int), wrapper),
        decreases wrappers@.len() - i,
    {
        assert(wrappers@.take(i + 1).drop_last() =~= wrappers@.take(i as int));
        if wrappers[i] == wrapper {
            positions.push(i);
        }
        i = i + 1;
    }
    assert(wrappers@.take(wrappers@.len() as int) =~= wrappers@);
    positions
}

/// Runs the hooks at `positions`, in that order.
fn run_hooks<C: RelationshipTarget, B: SystemBodies<C>>(
    bodies: &mut B,
    system: SystemId,
    wrapper: Wrapper,
    positions: &Vec<usize>,
    snapshot: &World<C>,
    allocator: &mut EntityAllocator,
) -> (outputs: Vec<SystemOutput<C>>)
    requires
        snapshot.wf(),
    ensures
        hooks_ran(
            *old(bodies),
            system,
            wrapper,
            positions@,
            snapshot@,
            old(allocator)@,
            *final(bodies),
            final(allocator)@,
            outputs_view(outputs@),
        ),
{
    let ghost first = *bodies;
    let ghost ids = allocator@;
    let mut outputs: Vec<SystemOutput<C>> = Vec::new();
    let mut i: usize = 0;
    assert(positions@.take(0) =~= Seq::<usize>::empty());
    assert(outputs_view(outputs@) =~= Seq::<OutputModel<C>>::empty());
    while i < positions.len()
        invariant
            i <= positions@.len(),
            snapshot.wf(),
            hooks_ran(
                first,
                system,
                wrapper,
                positions@.take(i as int),
                snapshot@,
                ids,
                *bodies,
                allocator@,
                outputs_view(outputs@),
            ),
        decreases positions@.len() - i,
    {
        let ghost middle = *bodies;
        let ghost at = allocator@;
        let ghost held = outputs@;
        let output = run_hook(bodies, system, wrapper, positions[i], snapshot, allocator);
        let ghost left = output@;
        outputs.push(output);
        proof {
            lemma_hook_ran_on(
                first,
                system,
                wrapper,
                positions@.take(i as int),
                snapshot@,
                ids,
                middle,
                at,
                outputs_view(held),
                positions@[i as int],
                *bodies,
                allocator@,
                left,
            );
            assert(positions@.take(i + 1) =~= positions@.take(i as int).push(
                positions@[i as int],
            ));
            assert(outputs_view(outputs@) =~= outputs_view(held).push(left));
        }
        i = i + 1;
    }
    assert(positions@.take(positions@.len() as int) =~= positions@);
    outputs
}

/// A run with what its start hooks left before it, and what its completion hooks
/// left after it.
pub fn surrounded<C: RelationshipTarget>(
    run: SystemRun<C>,
    starts: Vec<SystemOutput<C>>,
    completions: Vec<SystemOutput<C>>,
) -> (whole: SystemRun<C>)
    ensures
        whole@ == (RunModel {
            outputs: outputs_view(starts@) + run@.outputs + outputs_view(completions@),
            ..run@
        }),
{
    let ghost opening = outputs_view(starts@);
    let ghost inner = run@;
    let ghost closing = outputs_view(completions@);
    let mut whole = run;
    let mut starts = starts;
    assert(opening.skip(opening.len() as int) + inner.outputs =~= inner.outputs);
    while starts.len() > 0
        invariant
            starts@.len() <= opening.len(),
            outputs_view(starts@) =~= opening.take(starts@.len() as int),
            whole@ == (RunModel {
                outputs: opening.skip(starts@.len() as int) + inner.outputs,
                ..inner
            }),
        decreases starts@.len(),
    {
        let ghost held = starts@;
        if let Some(output) = starts.pop() {
            proof {
                assert(output == held.last());
                assert(outputs_view(held)[held.len() - 1] == output@);
                assert(opening[held.len() - 1] == output@);
            }
            whole = whole.with_start(output);
            assert(whole@.outputs =~= opening.skip(starts@.len() as int) + inner.outputs);
        }
    }
    let ghost opened = opening + inner.outputs;
    assert(whole@.outputs =~= opened);
    let ghost total = completions@.len();
    let mut rest = completions;
    assert(opened + closing.take(0) =~= opened);
    assert(closing.skip(0) =~= closing);
    while rest.len() > 0
        invariant
            rest@.len() <= total,
            total == closing.len(),
            outputs_view(rest@) =~= closing.skip(total - rest@.len()),
            whole@ == (RunModel {
                outputs: opened + closing.take(total - rest@.len()),
                ..inner
            }),
        decreases rest@.len(),
    {
        let ghost held = rest@;
        let ghost at = total - held.len();
        let output = rest.remove(0);
        proof {
            assert(outputs_view(held)[0] == closing.skip(at)[0]);
            assert(output@ == closing[at]);
            assert(outputs_view(rest@) =~= outputs_view(held).drop_first());
        }
        whole = whole.with_completion(output);
        assert(whole@.outputs =~= opened + closing.take(at + 1));
    }
    assert(closing.take(total as int) =~= closing);
    whole
}

/// Runs a batch: the start hooks from the outermost in, the invocations, and the
/// completion hooks from the innermost out. Every invocation and every hook has
/// one output, what it wrote, and every invocation is recorded with what it
/// observed.
pub fn run_batch<C: RelationshipTarget, B: SystemBodies<C>>(
    bodies: &mut B,
    wrappers: &Vec<Wrapper>,
    batch: PlannedBatch,
    snapshot: &World<C>,
    allocator: &mut EntityAllocator,
) -> (run: SystemRun<C>)
    requires
        snapshot.wf(),
    ensures
        run@.completed,
        run@.updates == updates_of(batch@.invocations, snapshot@.revision),
        output_owners(run@.outputs) == batch_owners(
            batch@.owner.system,
            wrappers@,
            batch@.invocations,
        ),
        batch_ran(
            *old(bodies),
            batch@.owner.system,
            wrappers@,
            batch@.invocations,
            snapshot@,
            old(allocator)@,
            *final(bodies),
            final(allocator)@,
            run@,
        ),
{
    let system = batch.owner.system;
    let ghost first = *bodies;
    let ghost ids = allocator@;
    let ghost planned = batch@.invocations;
    let outer = outer_hooks(wrappers, Wrapper::Start);
    let starts = run_hooks(bodies, system, Wrapper::Start, &outer, snapshot, allocator);
    let ghost started = *bodies;
    let ghost at = allocator@;
    let ghost opening = outputs_view(starts@);
    let run = run_invocations(bodies, batch.invocations, snapshot, allocator);
    let ghost done = *bodies;
    let ghost then_at = allocator@;
    let ghost inner = run@;
    let mut completions: Vec<SystemOutput<C>> = Vec::new();
    assert(outputs_view(completions@) =~= Seq::<OutputModel<C>>::empty());
    proof {
        lemma_hooks_own(
            first,
            system,
            Wrapper::Start,
            outer@,
            snapshot@,
            ids,
            started,
            at,
            opening,
        );
        assert(output_owners(opening).len() == opening.len());
        assert(output_owners(inner.outputs).len() == inner.outputs.len());
        assert(owners_of(planned).len() == planned.len());
        assert(outer@.len() == opening.len());
    }
    if starts.len() > 0 || run.wants_completion() {
        let completing = inner_hooks(wrappers, Wrapper::Complete);
        completions = run_hooks(
            bodies,
            system,
            Wrapper::Complete,
            &completing,
            snapshot,
            allocator,
        );
        proof {
            lemma_hooks_own(
                done,
                system,
                Wrapper::Complete,
                completing@,
                snapshot@,
                then_at,
                *bodies,
                allocator@,
                outputs_view(completions@),
            );
        }
    }
    let ghost closing = outputs_view(completions@);
    let whole = surrounded(run, starts, completions);
    proof {
        let count = opening.len() as int;
        let split = count + inner.outputs.len();
        assert(whole@.outputs.take(count) =~= opening);
        assert(whole@.outputs.subrange(count, split) =~= inner.outputs);
        assert(whole@.outputs.skip(split) =~= closing);
        assert(output_owners(whole@.outputs) =~= output_owners(opening) + output_owners(
            inner.outputs,
        ) + output_owners(closing));
        assert(output_owners(whole@.outputs) =~= batch_owners(system, wrappers@, planned));
        assert(hooks_ran(
            first,
            system,
            Wrapper::Start,
            outer@,
            snapshot@,
            ids,
            started,
            at,
            whole@.outputs.take(count),
        ) && invocations_ran(
            started,
            planned,
            snapshot@,
            at,
            done,
            then_at,
            whole@.outputs.subrange(count, split),
            whole@.writes,
        ));
    }
    whole
}

} // verus!
