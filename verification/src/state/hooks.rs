//! The callbacks of registered hooks, and the bodies that run them.

use crate::commands::{BufferModel, Commands, EntityAllocator};
use crate::component::RelationshipTarget;
use crate::config::SystemCallback;
use crate::declare::Anything;
use crate::entity::Entity;
use crate::invocation::{Invocation, SystemId};
use crate::memo::PlannedModel;
use crate::model::WorldModel;
use crate::param::RowState;
use crate::state::bodies::{
    batch_ran, fresh_buffer, hook_positions, hook_ran, hooks_ran, invocation_ran, invocations_ran,
    outer_positions, CallModel, HookCall, ReplyModel, SystemBodies,
};
use crate::system::{OutputModel, RunModel, Wrapper};
use crate::world::{write_facts, World};
use vstd::prelude::*;

verus! {

/// The callbacks of the hooks around each system, in registration order: those of
/// one system from the innermost out.
#[derive(Debug)]
pub struct HookTable<K> {
    callbacks: Vec<Vec<K>>,
}

impl<K> View for HookTable<K> {
    type V = Seq<Seq<K>>;

    closed spec fn view(&self) -> Seq<Seq<K>> {
        Seq::new(self.callbacks@.len(), |i: int| self.callbacks@[i]@)
    }
}

/// The callback at `position` among those of `system`.
pub open spec fn callback_at<K>(hooks: Seq<Seq<K>>, system: SystemId, position: usize) -> Option<
    K,
> {
    if system.0 < hooks.len() && position < hooks[system.0 as int].len() {
        Some(hooks[system.0 as int][position as int])
    } else {
        None
    }
}

impl<K> HookTable<K> {
    /// A table without systems.
    pub fn new() -> (table: Self)
        ensures
            table@ == Seq::<Seq<K>>::empty(),
    {
        let table = HookTable { callbacks: Vec::new() };
        assert(table@ =~= Seq::<Seq<K>>::empty());
        table
    }

    /// Adds the callbacks of the next system.
    pub fn push(&mut self, callbacks: Vec<K>)
        ensures
            final(self)@ == old(self)@.push(callbacks@),
    {
        let ghost before = self@;
        self.callbacks.push(callbacks);
        assert(self@ =~= before.push(callbacks@));
    }

    /// The callback at `position` among those of `system`.
    pub fn get(&self, system: SystemId, position: usize) -> (callback: Option<&K>)
        ensures
            match callback {
                Some(callback) => callback_at(self@, system, position) == Some(*callback),
                None => callback_at(self@, system, position) is None,
            },
    {
        if system.0 >= self.callbacks.len() {
            return None;
        }
        let mine = &self.callbacks[system.0];
        assert(self@[system.0 as int] == mine@);
        if position >= mine.len() {
            return None;
        }
        Some(&mine[position])
    }
}

/// The bodies of a bowl's systems, without the hooks around them.
///
/// An implementation says with [`RowBodies::runs`] what a run can do, as far as it
/// promises anything.
pub trait RowBodies<C: RelationshipTarget>: Sized {
    /// Whether a run that is handed `call` can leave `reply`, and turn the bodies
    /// from `before` into `after`.
    open spec fn runs(before: Self, call: CallModel<C>, after: Self, reply: ReplyModel<C>) -> bool {
        true
    }

    /// Runs a system for one combination of rows: one state per parameter.
    fn run(
        &mut self,
        system: SystemId,
        rows: &Vec<RowState>,
        snapshot: &World<C>,
        commands: &mut Commands<C, Anything>,
        allocator: &mut EntityAllocator,
    ) -> (writes: Vec<(Entity, C)>)
        requires
            snapshot.wf(),
        ensures
            Self::runs(
                *old(self),
                (CallModel {
                    system,
                    rows: rows@,
                    snapshot: snapshot@,
                    buffer: old(commands)@,
                    ids: old(allocator)@,
                }),
                *final(self),
                (ReplyModel {
                    filled: final(commands)@,
                    ids: final(allocator)@,
                    writes: write_facts(writes@),
                }),
            ),
    ;
}

/// The bodies of a bowl's systems, with the callbacks that were registered around
/// them.
pub struct Served<R, K> {
    pub rows: R,
    pub hooks: HookTable<K>,
}

impl<C: RelationshipTarget, R: RowBodies<C>, K: SystemCallback<C, Anything>> SystemBodies<
    C,
> for Served<R, K> {
    open spec fn runs(before: Self, call: CallModel<C>, after: Self, reply: ReplyModel<C>) -> bool {
        after.hooks == before.hooks && R::runs(before.rows, call, after.rows, reply)
    }

    open spec fn hooks(
        before: Self,
        call: HookCall<C>,
        after: Self,
        filled: BufferModel<C>,
        ids: u64,
    ) -> bool {
        &&& after == before
        &&& match callback_at(before.hooks@, call.system, call.position) {
            Some(callback) => callback.leaves(call.buffer, call.ids, filled, ids),
            None => filled == call.buffer && ids == call.ids,
        }
    }

    fn run(
        &mut self,
        system: SystemId,
        rows: &Vec<RowState>,
        snapshot: &World<C>,
        commands: &mut Commands<C, Anything>,
        allocator: &mut EntityAllocator,
    ) -> (writes: Vec<(Entity, C)>) {
        self.rows.run(system, rows, snapshot, commands, allocator)
    }

    fn hook(
        &mut self,
        system: SystemId,
        _wrapper: Wrapper,
        position: usize,
        commands: &mut Commands<C, Anything>,
        allocator: &mut EntityAllocator,
    ) {
        if let Some(callback) = self.hooks.get(system, position) {
            callback.run(commands, allocator);
        }
    }
}

/// A hook that ran has run the callback that was registered for it, once, on an
/// empty buffer, and what the callback left there is the hook's output.
pub proof fn lemma_registered_callback_runs<
    C: RelationshipTarget,
    R: RowBodies<C>,
    K: SystemCallback<C, Anything>,
>(
    before: Served<R, K>,
    system: SystemId,
    wrapper: Wrapper,
    position: usize,
    snapshot: WorldModel<C>,
    ids: u64,
    after: Served<R, K>,
    next: u64,
    output: OutputModel<C>,
)
    requires
        hook_ran(before, system, wrapper, position, snapshot, ids, after, next, output),
        callback_at(before.hooks@, system, position) is Some,
    ensures
        after == before,
        ({
            let owner = Invocation { system, keys: Seq::empty() };
            let callback = callback_at(before.hooks@, system, position)->0;
            &&& output.owner == owner
            &&& exists|filled: BufferModel<C>| #[trigger]
                callback.leaves(fresh_buffer(snapshot, owner), ids, filled, next) && output.ops
                    == filled.ops
        }),
{
    let owner = Invocation { system, keys: Seq::empty() };
    let call = HookCall::<C> {
        system,
        wrapper,
        position,
        buffer: fresh_buffer(snapshot, owner),
        ids,
    };
    let callback = callback_at(before.hooks@, system, position)->0;
    let filled = choose|filled: BufferModel<C>| #[trigger]
        <Served<R, K> as SystemBodies<C>>::hooks(before, call, after, filled, next) && output.ops
            == filled.ops;
    assert(callback.leaves(fresh_buffer(snapshot, owner), ids, filled, next));
}

/// Whether `output` is what a run of `callback` left in an empty buffer of `system`.
pub open spec fn callback_left<C: RelationshipTarget, K: SystemCallback<C, Anything>>(
    callback: K,
    system: SystemId,
    snapshot: WorldModel<C>,
    output: OutputModel<C>,
) -> bool {
    let owner = Invocation { system, keys: Seq::empty() };
    &&& output.owner == owner
    &&& exists|ids: u64, filled: BufferModel<C>, next: u64| #[trigger]
        callback.leaves(fresh_buffer(snapshot, owner), ids, filled, next) && output.ops
            == filled.ops
}

proof fn lemma_hooks_run_callbacks<
    C: RelationshipTarget,
    R: RowBodies<C>,
    K: SystemCallback<C, Anything>,
>(
    before: Served<R, K>,
    system: SystemId,
    wrapper: Wrapper,
    positions: Seq<usize>,
    snapshot: WorldModel<C>,
    ids: u64,
    after: Served<R, K>,
    next: u64,
    outputs: Seq<OutputModel<C>>,
)
    requires
        hooks_ran(before, system, wrapper, positions, snapshot, ids, after, next, outputs),
    ensures
        after == before,
        outputs.len() == positions.len(),
        forall|i: int|
            0 <= i < positions.len() ==> (callback_at(
                before.hooks@,
                system,
                #[trigger] positions[i],
            ) matches Some(callback) ==> callback_left(callback, system, snapshot, outputs[i])),
    decreases positions.len(),
{
    if positions.len() > 0 {
        let rest = positions.drop_last();
        let (middle, at) = choose|middle: Served<R, K>, at: u64|
            #[trigger] hook_ran(
                middle,
                system,
                wrapper,
                positions.last(),
                snapshot,
                at,
                after,
                next,
                outputs.last(),
            ) && hooks_ran(
                before,
                system,
                wrapper,
                rest,
                snapshot,
                ids,
                middle,
                at,
                outputs.drop_last(),
            );
        lemma_hooks_run_callbacks(
            before,
            system,
            wrapper,
            rest,
            snapshot,
            ids,
            middle,
            at,
            outputs.drop_last(),
        );
        if callback_at(before.hooks@, system, positions.last()) is Some {
            lemma_registered_callback_runs(
                middle,
                system,
                wrapper,
                positions.last(),
                snapshot,
                at,
                after,
                next,
                outputs.last(),
            );
        }
        assert forall|i: int| 0 <= i < positions.len() implies (callback_at(
            before.hooks@,
            system,
            #[trigger] positions[i],
        ) matches Some(callback) ==> callback_left(callback, system, snapshot, outputs[i])) by {
            if i < rest.len() {
                assert(rest[i] == positions[i]);
                assert(outputs.drop_last()[i] == outputs[i]);
            }
        }
    }
}

proof fn lemma_invocations_keep_callbacks<
    C: RelationshipTarget,
    R: RowBodies<C>,
    K: SystemCallback<C, Anything>,
>(
    before: Served<R, K>,
    planned: Seq<PlannedModel>,
    snapshot: WorldModel<C>,
    ids: u64,
    after: Served<R, K>,
    next: u64,
    outputs: Seq<OutputModel<C>>,
    writes: Seq<(Entity, C::Model)>,
)
    requires
        invocations_ran(before, planned, snapshot, ids, after, next, outputs, writes),
    ensures
        after.hooks == before.hooks,
    decreases planned.len(),
{
    if planned.len() > 0 {
        let (middle, at, mine) = choose|
            middle: Served<R, K>,
            at: u64,
            mine: Seq<(Entity, C::Model)>,
        |
            #[trigger] invocation_ran(
                middle,
                planned.last(),
                snapshot,
                at,
                after,
                next,
                outputs.last(),
                mine,
            ) && mine.len() <= writes.len() && writes.skip(writes.len() - mine.len()) == mine
                && invocations_ran(
                before,
                planned.drop_last(),
                snapshot,
                ids,
                middle,
                at,
                outputs.drop_last(),
                writes.take(writes.len() - mine.len()),
            );
        lemma_invocations_keep_callbacks(
            before,
            planned.drop_last(),
            snapshot,
            ids,
            middle,
            at,
            outputs.drop_last(),
            writes.take(writes.len() - mine.len()),
        );
    }
}

/// A batch runs the callbacks that were registered around its system, once each:
/// those of start hooks leave the first outputs, those of completion hooks the last,
/// behind the outputs of all invocations. The callbacks stay registered.
pub proof fn lemma_batch_runs_registered_callbacks<
    C: RelationshipTarget,
    R: RowBodies<C>,
    K: SystemCallback<C, Anything>,
>(
    before: Served<R, K>,
    system: SystemId,
    wrappers: Seq<Wrapper>,
    planned: Seq<PlannedModel>,
    snapshot: WorldModel<C>,
    ids: u64,
    after: Served<R, K>,
    next: u64,
    run: RunModel<C>,
)
    requires
        batch_ran(before, system, wrappers, planned, snapshot, ids, after, next, run),
        planned.len() > 0,
    ensures
        after.hooks == before.hooks,
        ({
            let starts = outer_positions(wrappers, Wrapper::Start);
            let completes = hook_positions(wrappers, Wrapper::Complete);
            let opened = starts.len() + planned.len();
            &&& run.outputs.len() == opened + completes.len()
            &&& forall|i: int|
                0 <= i < starts.len() ==> (callback_at(
                    before.hooks@,
                    system,
                    #[trigger] starts[i],
                ) matches Some(callback) ==> callback_left(
                    callback,
                    system,
                    snapshot,
                    run.outputs[i],
                ))
            &&& forall|i: int|
                0 <= i < completes.len() ==> (callback_at(
                    before.hooks@,
                    system,
                    #[trigger] completes[i],
                ) matches Some(callback) ==> callback_left(
                    callback,
                    system,
                    snapshot,
                    run.outputs[opened + i],
                ))
        }),
{
    let starts = outer_positions(wrappers, Wrapper::Start);
    let completes = hook_positions(wrappers, Wrapper::Complete);
    let first = starts.len() as int;
    let opened = first + planned.len();
    let (started, at, done, then_at) = choose|
        started: Served<R, K>,
        at: u64,
        done: Served<R, K>,
        then_at: u64,
    |
        #![trigger hooks_ran(before, system, Wrapper::Start, starts, snapshot, ids, started, at, run.outputs.take(first)), invocations_ran(started, planned, snapshot, at, done, then_at, run.outputs.subrange(first, opened), run.writes)]
        hooks_ran(
            before,
            system,
            Wrapper::Start,
            starts,
            snapshot,
            ids,
            started,
            at,
            run.outputs.take(first),
        ) && invocations_ran(
            started,
            planned,
            snapshot,
            at,
            done,
            then_at,
            run.outputs.subrange(first, opened),
            run.writes,
        ) && hooks_ran(
            done,
            system,
            Wrapper::Complete,
            completes,
            snapshot,
            then_at,
            after,
            next,
            run.outputs.skip(opened),
        );
    lemma_hooks_run_callbacks(
        before,
        system,
        Wrapper::Start,
        starts,
        snapshot,
        ids,
        started,
        at,
        run.outputs.take(first),
    );
    lemma_invocations_keep_callbacks(
        started,
        planned,
        snapshot,
        at,
        done,
        then_at,
        run.outputs.subrange(first, opened),
        run.writes,
    );
    lemma_hooks_run_callbacks(
        done,
        system,
        Wrapper::Complete,
        completes,
        snapshot,
        then_at,
        after,
        next,
        run.outputs.skip(opened),
    );
    assert forall|i: int| 0 <= i < starts.len() implies (callback_at(
        before.hooks@,
        system,
        #[trigger] starts[i],
    ) matches Some(callback) ==> callback_left(callback, system, snapshot, run.outputs[i])) by {
        assert(run.outputs.take(first)[i] == run.outputs[i]);
    }
    assert forall|i: int| 0 <= i < completes.len() implies (callback_at(
        before.hooks@,
        system,
        #[trigger] completes[i],
    ) matches Some(callback) ==> callback_left(
        callback,
        system,
        snapshot,
        run.outputs[opened + i],
    )) by {
        assert(run.outputs.skip(opened)[i] == run.outputs[opened + i]);
    }
}

} // verus!
