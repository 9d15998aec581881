//! Committing system runs: replacing an invocation's outputs by diffing, keeping
//! the memo table current, and checking what was written.

use crate::commands::{apply_commands, apply_ops, ops_view, ApplyError, CommandOp, OpModel};
use crate::component::{Component, ComponentId, RelationshipTarget};
use crate::conformance::{
    check_shape_conformance, completes, lands_in_view, shape_refused, write_lands_in_view,
    ShapeError,
};
use crate::declare::ShapeDesc;
use crate::entity::Entity;
use crate::invocation::{untouched, Invocation, SystemId, SystemInvocation};
use crate::memo::{deps_hold, MemoEntry, MemoModel, MemoTable};
use crate::model::{outputs, Cell, HookRun, WorldModel};
use crate::param::{system_states, JoinError};
use crate::registry::{systems_view, BoxedSystem, SystemModel};
use crate::system::{
    outputs_view, runs_view, updates_view, OutputModel, Phase, RunModel, SystemOutput, SystemRun,
};
use crate::world::{write_facts, World};
use vstd::prelude::*;
use vstd::string::StringExecFns;

verus! {

/// What one commit achieved.
#[derive(Debug, Clone, Copy)]
pub struct CommitProgress {
    /// The world changed: the phase has to be planned again.
    pub needs_followup: bool,
    /// The run was discarded because its inputs went stale before the commit; its
    /// row must be planned again.
    pub stale: bool,
    pub commits: u64,
}

impl CommitProgress {
    /// No progress.
    pub open spec fn none() -> CommitProgress {
        CommitProgress { needs_followup: false, stale: false, commits: 0 }
    }

    /// Progress that changed the world or not.
    pub open spec fn of(needs_followup: bool, stale: bool) -> CommitProgress {
        CommitProgress {
            needs_followup,
            stale,
            commits: if needs_followup {
                1
            } else {
                0
            },
        }
    }
}

fn progress(needs_followup: bool, stale: bool) -> (progress: CommitProgress)
    ensures
        progress == CommitProgress::of(needs_followup, stale),
{
    let commits: u64 = if needs_followup {
        1
    } else {
        0
    };
    CommitProgress { needs_followup, stale, commits }
}

/// Why a run could not be committed.
#[derive(Debug)]
pub enum CommitError {
    /// A command was refused.
    Apply(ApplyError),
    /// An entity was written that fits no declared shape.
    Shape { entity: Entity, kinds: Vec<ComponentId>, error: ShapeError },
    /// A write completed an entity that a view of the same phase matches.
    Race { component: ComponentId, viewer: usize, phase: Phase },
    /// A viewer's rows could not be joined.
    Join(JoinError),
}

/// What a [`CommitError`] says.
#[verifier::ext_equal]
pub enum RefusalModel {
    Apply(ApplyError),
    Shape { entity: Entity, kinds: Seq<ComponentId> },
    Race { component: ComponentId, viewer: usize, phase: Phase },
    Join(JoinError),
}

impl View for CommitError {
    type V = RefusalModel;

    open spec fn view(&self) -> RefusalModel {
        match self {
            CommitError::Apply(error) => RefusalModel::Apply(*error),
            CommitError::Shape { entity, kinds, .. } => RefusalModel::Shape {
                entity: *entity,
                kinds: kinds@,
            },
            CommitError::Race { component, viewer, phase } => RefusalModel::Race {
                component: *component,
                viewer: *viewer,
                phase: *phase,
            },
            CommitError::Join(error) => RefusalModel::Join(*error),
        }
    }
}

/// The operations that a settle-phase commit applies at once.
pub open spec fn immediate<C: Component>(ops: Seq<OpModel<C>>, defer: bool) -> Seq<OpModel<C>>
    decreases ops.len(),
{
    if ops.len() == 0 {
        Seq::empty()
    } else {
        let rest = immediate(ops.drop_last(), defer);
        if defer && ops.last().deferred() {
            rest
        } else {
            rest.push(ops.last())
        }
    }
}

/// The operations that a settle-phase commit holds back, each with its owner.
pub open spec fn held_back<C: Component>(
    ops: Seq<OpModel<C>>,
    owner: Invocation,
    defer: bool,
) -> Seq<(Invocation, OpModel<C>)>
    decreases ops.len(),
{
    if ops.len() == 0 {
        Seq::empty()
    } else {
        let rest = held_back(ops.drop_last(), owner, defer);
        if defer && ops.last().deferred() {
            rest.push((owner, ops.last()))
        } else {
            rest
        }
    }
}

/// What a list of held-back operations holds.
pub open spec fn held_view<C: Component>(held: Seq<(SystemInvocation, CommandOp<C>)>) -> Seq<
    (Invocation, OpModel<C>),
> {
    held.map_values(|entry: (SystemInvocation, CommandOp<C>)| (entry.0@, entry.1@))
}

/// Splits a buffer into what applies at once and what is held back.
fn split_ops<C: RelationshipTarget>(
    ops: Vec<CommandOp<C>>,
    owner: &SystemInvocation,
    defer: bool,
) -> (split: (Vec<CommandOp<C>>, Vec<(SystemInvocation, CommandOp<C>)>))
    ensures
        ops_view(split.0@) == immediate(ops_view(ops@), defer),
        held_view(split.1@) == held_back(ops_view(ops@), owner@, defer),
{
    let ghost all = ops_view(ops@);
    let ghost total = ops@.len();
    let mut rest = ops;
    let mut now: Vec<CommandOp<C>> = Vec::new();
    let mut later: Vec<(SystemInvocation, CommandOp<C>)> = Vec::new();
    let ghost mut done: int = 0;
    assert(all.take(0) =~= Seq::<OpModel<C>>::empty());
    assert(ops_view(now@) =~= Seq::<OpModel<C>>::empty());
    assert(held_view(later@) =~= Seq::<(Invocation, OpModel<C>)>::empty());
    while rest.len() > 0
        invariant
            0 <= done,
            done + rest@.len() == total,
            all.len() == total,
            ops_view(rest@) =~= all.skip(done),
            ops_view(now@) == immediate(all.take(done), defer),
            held_view(later@) == held_back(all.take(done), owner@, defer),
        decreases rest@.len(),
    {
        let ghost held = rest@;
        let ghost now_before = now@;
        let ghost later_before = later@;
        let op = rest.remove(0);
        assert(ops_view(held)[0] == all.skip(done)[0]);
        assert(op@ == all[done]);
        assert(all.take(done + 1).drop_last() =~= all.take(done));
        assert(ops_view(rest@) =~= ops_view(held).drop_first());
        assert(all.skip(done + 1) =~= all.skip(done).drop_first());
        if defer && op.defers_at_settle() {
            later.push((owner.duplicate(), op));
            assert(held_view(later@) =~= held_view(later_before).push((owner@, all[done])));
        } else {
            now.push(op);
            assert(ops_view(now@) =~= ops_view(now_before).push(all[done]));
        }
        proof {
            done = done + 1;
        }
    }
    assert(all.take(done) =~= all);
    (now, later)
}

/// Replaces the outputs of one invocation: its operations apply over the old
/// outputs, so that unchanged fingerprints keep their revisions, and what it did
/// not emit again is removed.
pub open spec fn replace_outputs<C: RelationshipTarget>(
    world: WorldModel<C>,
    output: OutputModel<C>,
    defer: bool,
) -> (WorldModel<C>, Result<(), ApplyError>) {
    let previous = outputs(world.owned, output.owner);
    let taken = WorldModel { owned: world.owned.remove(output.owner), ..world };
    let applied = apply_ops(taken, immediate(output.ops, defer), output.owner);
    if applied.1 is Err {
        applied
    } else {
        (
            applied.0.flush().finish_spawns(output.owner).remove_stale(output.owner, previous),
            Ok(()),
        )
    }
}

/// The component types written on `entity`, in order.
pub open spec fn written_on(written: Seq<Cell>, entity: Entity) -> Seq<ComponentId>
    decreases written.len(),
{
    if written.len() == 0 {
        Seq::empty()
    } else {
        let rest = written_on(written.drop_last(), entity);
        if written.last().1 == entity {
            rest.push(written.last().0)
        } else {
            rest
        }
    }
}

/// Whether what was written on `entity` fits a declared shape that is complete.
pub open spec fn conforms<C: RelationshipTarget>(
    world: WorldModel<C>,
    schema: Seq<ShapeDesc>,
    entity: Entity,
    kinds: Seq<ComponentId>,
) -> bool {
    exists|i: int| 0 <= i < schema.len() && #[trigger] completes(world, schema, entity, kinds, i)
}

/// The first entity, in write order, whose write does not conform.
pub open spec fn first_misfit<C: RelationshipTarget>(
    world: WorldModel<C>,
    schema: Seq<ShapeDesc>,
    written: Seq<Cell>,
    from: int,
) -> Option<RefusalModel>
    decreases written.len() - from,
{
    if from < 0 || from >= written.len() {
        None
    } else {
        let entity = written[from].1;
        let kinds = written_on(written, entity);
        if conforms(world, schema, entity, kinds) {
            first_misfit(world, schema, written, from + 1)
        } else {
            Some(RefusalModel::Shape { entity, kinds })
        }
    }
}

/// The first system, other than the writer, that runs in `phase` and could have
/// missed the write of `cell`: the write lands in one of its views, and it has
/// rows.
pub open spec fn first_racer<C: RelationshipTarget>(
    world: WorldModel<C>,
    systems: Seq<SystemModel>,
    writer: SystemId,
    phase: Phase,
    cell: Cell,
    from: int,
) -> Option<RefusalModel>
    decreases systems.len() - from,
{
    if from < 0 || from >= systems.len() {
        None
    } else if from == writer.0 || systems[from].phase != phase || !lands_in_view(
        world,
        systems[from].views,
        cell.0,
        cell.1,
    ) {
        first_racer(world, systems, writer, phase, cell, from + 1)
    } else {
        match system_states(world, systems[from].params) {
            Err(error) => Some(RefusalModel::Join(error)),
            Ok(states) => if states.len() > 0 {
                Some(RefusalModel::Race { component: cell.0, viewer: from as usize, phase })
            } else {
                first_racer(world, systems, writer, phase, cell, from + 1)
            },
        }
    }
}

/// The first write that races a view of the same phase.
pub open spec fn first_race<C: RelationshipTarget>(
    world: WorldModel<C>,
    systems: Seq<SystemModel>,
    writer: SystemId,
    phase: Phase,
    written: Seq<Cell>,
    from: int,
) -> Option<RefusalModel>
    decreases written.len() - from,
{
    if from < 0 || from >= written.len() {
        None
    } else {
        let racer = first_racer(world, systems, writer, phase, written[from], 0);
        if racer is Some {
            racer
        } else {
            first_race(world, systems, writer, phase, written, from + 1)
        }
    }
}

/// What commits are checked against.
#[verifier::ext_equal]
pub struct CheckModel {
    pub systems: Seq<SystemModel>,
    pub schema: Option<Seq<ShapeDesc>>,
    pub checked: bool,
}

impl CheckModel {
    /// Why the writes of one output are refused: a shape first, then a race.
    pub open spec fn refuses<C: RelationshipTarget>(
        self,
        world: WorldModel<C>,
        writer: SystemId,
        phase: Option<Phase>,
        written: Seq<Cell>,
    ) -> Option<RefusalModel> {
        let misfit = match self.schema {
            Some(schema) => first_misfit(world, schema, written, 0),
            None => None,
        };
        if !self.checked {
            None
        } else if misfit is Some {
            misfit
        } else {
            match phase {
                Some(phase) => first_race(world, self.systems, writer, phase, written, 0),
                None => None,
            }
        }
    }
}

/// The world with the list of derived writes drained.
pub open spec fn drained<C: RelationshipTarget>(world: WorldModel<C>) -> WorldModel<C> {
    WorldModel { written: Seq::empty(), ..world }
}

/// Commits outputs in order; the first refusal ends it.
pub open spec fn commit_outputs<C: RelationshipTarget>(
    world: WorldModel<C>,
    list: Seq<OutputModel<C>>,
    phase: Option<Phase>,
    checks: CheckModel,
) -> (WorldModel<C>, Option<RefusalModel>)
    decreases list.len(),
{
    if list.len() == 0 {
        (world, None)
    } else {
        let done = commit_outputs(world, list.drop_last(), phase, checks);
        if done.1 is Some {
            done
        } else {
            commit_output(done.0, list.last(), phase, checks)
        }
    }
}

/// Commits one output.
#[verifier::opaque]
pub open spec fn commit_output<C: RelationshipTarget>(
    world: WorldModel<C>,
    output: OutputModel<C>,
    phase: Option<Phase>,
    checks: CheckModel,
) -> (WorldModel<C>, Option<RefusalModel>) {
    let replaced = replace_outputs(world, output, phase == Some(Phase::Settle));
    match replaced.1 {
        Err(error) => (replaced.0, Some(RefusalModel::Apply(error))),
        Ok(_) => (
            drained(replaced.0),
            checks.refuses(
                drained(replaced.0),
                output.owner.system,
                phase,
                replaced.0.written,
            ),
        ),
    }
}

/// The operations that committing `list` holds back.
pub open spec fn held_by<C: RelationshipTarget>(
    list: Seq<OutputModel<C>>,
    phase: Option<Phase>,
) -> Seq<(Invocation, OpModel<C>)>
    decreases list.len(),
{
    if list.len() == 0 {
        Seq::empty()
    } else {
        held_by(list.drop_last(), phase) + held_back(
            list.last().ops,
            list.last().owner,
            phase == Some(Phase::Settle),
        )
    }
}

/// The cells of in-place writes.
pub open spec fn written_cells<C: RelationshipTarget>(writes: Seq<(Entity, C::Model)>) -> Seq<
    Cell,
> {
    writes.map_values(|write: (Entity, C::Model)| (C::kind(write.1), write.0))
}

/// The memo table after `updates`: each record absorbs what its own run wrote in
/// place.
pub open spec fn memo_after<C: RelationshipTarget>(
    world: WorldModel<C>,
    memo: Map<Invocation, MemoModel>,
    updates: Seq<(Invocation, MemoModel)>,
    cells: Seq<Cell>,
) -> Map<Invocation, MemoModel>
    decreases updates.len(),
{
    if updates.len() == 0 {
        memo
    } else {
        memo_after(world, memo, updates.drop_last(), cells).insert(
            updates.last().0,
            updates.last().1.refreshed(world, cells),
        )
    }
}

/// Whether every input recorded by `updates` is still current.
pub open spec fn updates_current<C: RelationshipTarget>(
    world: WorldModel<C>,
    updates: Seq<(Invocation, MemoModel)>,
) -> bool {
    forall|i: int| 0 <= i < updates.len() ==> deps_hold(world, (#[trigger] updates[i]).1.deps)
}

/// What a commit acts on: the world, the memo table and the operations held back
/// for the next run.
#[verifier::ext_equal]
#[verifier::reject_recursive_types(C)]
pub struct CommitModel<C: Component> {
    pub world: WorldModel<C>,
    pub memo: Map<Invocation, MemoModel>,
    pub held: Seq<(Invocation, OpModel<C>)>,
}

/// The world after its due hooks ran.
pub open spec fn delivered<C: RelationshipTarget>(world: WorldModel<C>) -> WorldModel<C> {
    WorldModel { hooks: Seq::<HookRun>::empty(), ..world }
}

/// Commits one run. A run whose inputs went stale is discarded, except for what
/// it already wrote in place.
#[verifier::opaque]
pub open spec fn commit_run<C: RelationshipTarget>(
    before: CommitModel<C>,
    run: RunModel<C>,
    phase: Option<Phase>,
    checks: CheckModel,
) -> (CommitModel<C>, Result<CommitProgress, RefusalModel>) {
    if !updates_current(before.world, run.updates) {
        let world = before.world.reconcile_each(run.writes);
        (
            CommitModel { world: delivered(world), ..before },
            Ok(
                CommitProgress::of(
                    world.revision != before.world.revision || world.mutations
                        != before.world.mutations,
                    true,
                ),
            ),
        )
    } else {
        let committed = commit_outputs(before.world, run.outputs, phase, checks);
        match committed.1 {
            Some(refusal) => (
                CommitModel { world: committed.0, ..before },
                Err(refusal),
            ),
            None => {
                let world = committed.0.reconcile_each(run.writes);
                let memo = memo_after(world, before.memo, run.updates, written_cells::<C>(run.writes));
                (
                    CommitModel {
                        world: delivered(WorldModel { removed: Seq::empty(), ..world }),
                        memo: if world.removed.len() == 0 {
                            memo
                        } else {
                            untouched(memo, world.removed)
                        },
                        held: before.held + held_by(run.outputs, phase),
                    },
                    Ok(
                        CommitProgress::of(
                            world.revision != before.world.revision || world.mutations
                                != before.world.mutations,
                            false,
                        ),
                    ),
                )
            },
        }
    }
}

fn kinds_written_on(written: &Vec<Cell>, entity: Entity) -> (kinds: Vec<ComponentId>)
    ensures
        kinds@ == written_on(written@, entity),
{
    let mut kinds: Vec<ComponentId> = Vec::new();
    let mut i: usize = 0;
    assert(written@.take(0) =~= Seq::<Cell>::empty());
    while i < written.len()
        invariant
            i <= written@.len(),
            kinds@ == written_on(written@.take(i as int), entity),
        decreases written@.len() - i,
    {
        assert(written@.take(i + 1).drop_last() =~= written@.take(i as int));
        if written[i].1.same(entity) {
            proof {
                crate::entity::lemma_entity_is_its_id(written@[i as int].1, entity);
            }
            kinds.push(written[i].0);
        }
        i = i + 1;
    }
    assert(written@.take(written@.len() as int) =~= written@);
    kinds
}

/// What a schema is made of, when there is one.
pub open spec fn schema_view(schema: Option<Vec<ShapeDesc>>) -> Option<Seq<ShapeDesc>> {
    match schema {
        Some(shapes) => Some(shapes@),
        None => None,
    }
}

fn find_misfit<C: RelationshipTarget>(
    world: &World<C>,
    schema: &Vec<ShapeDesc>,
    written: &Vec<Cell>,
) -> (misfit: Option<CommitError>)
    ensures
        match misfit {
            Some(error) => {
                &&& first_misfit(world@, schema@, written@, 0) == Some(error@)
                &&& error matches CommitError::Shape { entity, kinds, error } && shape_refused(
                    world@,
                    schema@,
                    entity,
                    kinds@,
                    error,
                )
            },
            None => first_misfit(world@, schema@, written@, 0) is None,
        },
{
    let mut i: usize = 0;
    while i < written.len()
        invariant
            i <= written@.len(),
            first_misfit(world@, schema@, written@, 0) == first_misfit(
                world@,
                schema@,
                written@,
                i as int,
            ),
        decreases written@.len() - i,
    {
        let entity = written[i].1;
        let kinds = kinds_written_on(written, entity);
        match check_shape_conformance(world, schema, entity, &kinds) {
            Ok(_) => {
                assert(conforms(world@, schema@, entity, kinds@));
            },
            Err(error) => {
                assert(!conforms(world@, schema@, entity, kinds@));
                return Some(CommitError::Shape { entity, kinds, error });
            },
        }
        i = i + 1;
    }
    None
}

fn find_racer<C: RelationshipTarget>(
    world: &World<C>,
    systems: &Vec<BoxedSystem>,
    writer: SystemId,
    phase: Phase,
    cell: Cell,
) -> (race: Option<CommitError>)
    requires
        world.wf(),
    ensures
        match race {
            Some(error) => first_racer(world@, systems_view(systems@), writer, phase, cell, 0)
                == Some(error@),
            None => first_racer(
                world@,
                systems_view(systems@),
                writer,
                phase,
                cell,
                0,
            ) is None,
        },
        race matches Some(error) ==> !(error is Shape),
{
    let ghost models = systems_view(systems@);
    let mut i: usize = 0;
    while i < systems.len()
        invariant
            world.wf(),
            i <= systems@.len(),
            models == systems_view(systems@),
            first_racer(world@, models, writer, phase, cell, 0) == first_racer(
                world@,
                models,
                writer,
                phase,
                cell,
                i as int,
            ),
        decreases systems@.len() - i,
    {
        assert(models[i as int] == systems@[i as int]@);
        if i != writer.0 && systems[i].phase == phase && write_lands_in_view(
            world,
            &systems[i],
            cell,
        ) {
            match systems[i].matched_rows(world) {
                Err(error) => {
                    return Some(CommitError::Join(error));
                },
                Ok(matched) => {
                    if matched > 0 {
                        return Some(
                            CommitError::Race { component: cell.0, viewer: i, phase },
                        );
                    }
                },
            }
        }
        i = i + 1;
    }
    None
}

fn find_race<C: RelationshipTarget>(
    world: &World<C>,
    systems: &Vec<BoxedSystem>,
    writer: SystemId,
    phase: Phase,
    written: &Vec<Cell>,
) -> (race: Option<CommitError>)
    requires
        world.wf(),
    ensures
        match race {
            Some(error) => first_race(world@, systems_view(systems@), writer, phase, written@, 0)
                == Some(error@),
            None => first_race(
                world@,
                systems_view(systems@),
                writer,
                phase,
                written@,
                0,
            ) is None,
        },
        race matches Some(error) ==> !(error is Shape),
{
    let ghost models = systems_view(systems@);
    let mut i: usize = 0;
    while i < written.len()
        invariant
            world.wf(),
            i <= written@.len(),
            models == systems_view(systems@),
            first_race(world@, models, writer, phase, written@, 0) == first_race(
                world@,
                models,
                writer,
                phase,
                written@,
                i as int,
            ),
        decreases written@.len() - i,
    {
        let race = find_racer(world, systems, writer, phase, written[i]);
        if race.is_some() {
            return race;
        }
        i = i + 1;
    }
    None
}

/// Whether a shape error names the shape that a write on `world` comes nearest
/// to.
pub open spec fn explained<C: RelationshipTarget>(
    world: WorldModel<C>,
    schema: Option<Vec<ShapeDesc>>,
    error: CommitError,
) -> bool {
    match error {
        CommitError::Shape { entity, kinds, error } => schema_view(schema) matches Some(shapes)
            && shape_refused(world, shapes, entity, kinds@, error),
        _ => true,
    }
}

/// Checks what one output wrote.
fn check_written<C: RelationshipTarget>(
    world: &World<C>,
    systems: &Vec<BoxedSystem>,
    schema: &Option<Vec<ShapeDesc>>,
    checked: bool,
    writer: SystemId,
    phase: Option<Phase>,
    written: &Vec<Cell>,
) -> (refusal: Option<CommitError>)
    requires
        world.wf(),
    ensures
        ({
            let checks = CheckModel {
                systems: systems_view(systems@),
                schema: schema_view(*schema),
                checked,
            };
            match refusal {
                Some(error) => checks.refuses(world@, writer, phase, written@) == Some(error@),
                None => checks.refuses(world@, writer, phase, written@) is None,
            }
        }),
        refusal matches Some(error) ==> explained(world@, *schema, error),
{
    if !checked {
        return None;
    }
    if let Some(shapes) = schema {
        let misfit = find_misfit(world, shapes, written);
        if misfit.is_some() {
            return misfit;
        }
    }
    match phase {
        Some(phase) => find_race(world, systems, writer, phase, written),
        None => None,
    }
}

fn replace<C: RelationshipTarget>(
    world: &mut World<C>,
    owner: &SystemInvocation,
    ops: Vec<CommandOp<C>>,
) -> (outcome: Result<(), ApplyError>)
    requires
        old(world).wf(),
    ensures
        final(world).wf(),
        ({
            let previous = outputs(old(world)@.owned, owner@);
            let taken = WorldModel { owned: old(world)@.owned.remove(owner@), ..old(world)@ };
            let applied = apply_ops(taken, ops_view(ops@), owner@);
            &&& outcome == applied.1
            &&& final(world)@ == if applied.1 is Err {
                applied.0
            } else {
                applied.0.flush().finish_spawns(owner@).remove_stale(owner@, previous)
            }
        }),
{
    let previous = world.take_derived_outputs(owner);
    if let Err(error) = apply_commands(world, ops, owner) {
        return Err(error);
    }
    world.flush_derived_from();
    world.finish_derived_spawns(owner);
    world.remove_derived_stale(owner, &previous);
    Ok(())
}

fn cells_of<C: RelationshipTarget>(writes: &Vec<(Entity, C)>) -> (cells: Vec<Cell>)
    ensures
        cells@ == written_cells::<C>(write_facts(writes@)),
{
    let mut cells: Vec<Cell> = Vec::new();
    let mut i: usize = 0;
    while i < writes.len()
        invariant
            i <= writes@.len(),
            cells@ =~= written_cells::<C>(write_facts(writes@)).take(i as int),
        decreases writes@.len() - i,
    {
        let kind = writes[i].1.component_id();
        cells.push((kind, writes[i].0));
        i = i + 1;
    }
    assert(cells@ =~= written_cells::<C>(write_facts(writes@)));
    cells
}

fn entries_current<C: RelationshipTarget>(
    world: &World<C>,
    updates: &Vec<(SystemInvocation, MemoEntry)>,
) -> (current: bool)
    ensures
        current == updates_current(world@, updates_view(updates@)),
{
    let ghost all = updates_view(updates@);
    let mut i: usize = 0;
    while i < updates.len()
        invariant
            i <= updates@.len(),
            all == updates_view(updates@),
            forall|j: int| 0 <= j < i ==> deps_hold(world@, (#[trigger] all[j]).1.deps),
        decreases updates@.len() - i,
    {
        assert(all[i as int].1 == updates@[i as int].1@);
        if !updates[i].1.is_current(world) {
            assert(!deps_hold(world@, all[i as int].1.deps));
            return false;
        }
        i = i + 1;
    }
    true
}

fn record_updates<C: RelationshipTarget>(
    world: &World<C>,
    memo: &mut MemoTable,
    updates: Vec<(SystemInvocation, MemoEntry)>,
    cells: &Vec<Cell>,
)
    requires
        old(memo).wf(),
    ensures
        final(memo).wf(),
        final(memo)@ == memo_after(world@, old(memo)@, updates_view(updates@), cells@),
{
    let ghost before = memo@;
    let ghost all = updates_view(updates@);
    let ghost total = updates@.len();
    let mut rest = updates;
    let ghost mut done: int = 0;
    assert(all.take(0) =~= Seq::<(Invocation, MemoModel)>::empty());
    while rest.len() > 0
        invariant
            memo.wf(),
            0 <= done,
            done + rest@.len() == total,
            all.len() == total,
            updates_view(rest@) =~= all.skip(done),
            memo@ == memo_after(world@, before, all.take(done), cells@),
        decreases rest@.len(),
    {
        let ghost held = rest@;
        let (owner, mut entry) = rest.remove(0);
        assert(updates_view(held)[0] == all.skip(done)[0]);
        assert((owner@, entry@) == all[done]);
        assert(all.take(done + 1).drop_last() =~= all.take(done));
        assert(updates_view(rest@) =~= updates_view(held).drop_first());
        assert(all.skip(done + 1) =~= all.skip(done).drop_first());
        entry.refresh_written(world, cells);
        memo.insert(owner, entry);
        proof {
            done = done + 1;
        }
    }
    assert(all.take(done) =~= all);
}

proof fn lemma_refused_outputs_stop<C: RelationshipTarget>(
    world: WorldModel<C>,
    list: Seq<OutputModel<C>>,
    phase: Option<Phase>,
    checks: CheckModel,
    done: int,
)
    requires
        0 <= done <= list.len(),
        commit_outputs(world, list.take(done), phase, checks).1 is Some,
    ensures
        commit_outputs(world, list, phase, checks) == commit_outputs(
            world,
            list.take(done),
            phase,
            checks,
        ),
    decreases list.len() - done,
{
    if done == list.len() {
        assert(list.take(done) =~= list);
    } else {
        assert(list.take(done + 1).drop_last() =~= list.take(done));
        lemma_refused_outputs_stop(world, list, phase, checks, done + 1);
    }
}

/// Commits one output, collecting what is held back.
fn commit_one<C: RelationshipTarget>(
    world: &mut World<C>,
    systems: &Vec<BoxedSystem>,
    schema: &Option<Vec<ShapeDesc>>,
    checked: bool,
    output: SystemOutput<C>,
    phase: Option<Phase>,
    held: &mut Vec<(SystemInvocation, CommandOp<C>)>,
) -> (refusal: Option<CommitError>)
    requires
        old(world).wf(),
    ensures
        final(world).wf(),
        ({
            let checks = CheckModel {
                systems: systems_view(systems@),
                schema: schema_view(*schema),
                checked,
            };
            let committed = commit_output(old(world)@, output@, phase, checks);
            &&& final(world)@ == committed.0
            &&& match refusal {
                Some(error) => committed.1 == Some(error@),
                None => committed.1 is None,
            }
        }),
        refusal is None ==> held_view(final(held)@) == held_view(old(held)@) + held_back(
            output@.ops,
            output@.owner,
            phase == Some(Phase::Settle),
        ),
        refusal matches Some(error) ==> explained(final(world)@, *schema, error),
{
    let defer = match phase {
        Some(Phase::Settle) => true,
        _ => false,
    };
    let ghost before = world@;
    proof {
        reveal(commit_output);
    }
    let SystemOutput { owner, commands } = output;
    let writer = owner.system;
    let (ops, mut later) = split_ops(commands, &owner, defer);
    if let Err(error) = replace(world, &owner, ops) {
        return Some(CommitError::Apply(error));
    }
    assert(world@ == replace_outputs(before, output@, defer).0);
    let written = world.take_written_derived();
    let refusal = check_written(world, systems, schema, checked, writer, phase, &written);
    if refusal.is_some() {
        return refusal;
    }
    let ghost held_now = held@;
    let ghost more = later@;
    held.append(&mut later);
    assert(held_view(held@) =~= held_view(held_now) + held_view(more));
    None
}

/// Commits the outputs of a run in order, collecting what is held back.
fn commit_each<C: RelationshipTarget>(
    world: &mut World<C>,
    systems: &Vec<BoxedSystem>,
    schema: &Option<Vec<ShapeDesc>>,
    checked: bool,
    list: Vec<SystemOutput<C>>,
    phase: Option<Phase>,
    held: &mut Vec<(SystemInvocation, CommandOp<C>)>,
) -> (refusal: Option<CommitError>)
    requires
        old(world).wf(),
    ensures
        final(world).wf(),
        ({
            let checks = CheckModel {
                systems: systems_view(systems@),
                schema: schema_view(*schema),
                checked,
            };
            let committed = commit_outputs(old(world)@, outputs_view(list@), phase, checks);
            &&& final(world)@ == committed.0
            &&& match refusal {
                Some(error) => committed.1 == Some(error@),
                None => committed.1 is None,
            }
        }),
        refusal is None ==> held_view(final(held)@) == held_view(old(held)@) + held_by(
            outputs_view(list@),
            phase,
        ),
        refusal matches Some(error) ==> explained(final(world)@, *schema, error),
{
    let ghost before = world@;
    let ghost held_before = held_view(held@);
    let ghost all = outputs_view(list@);
    let ghost total = list@.len();
    let ghost checks = CheckModel {
        systems: systems_view(systems@),
        schema: schema_view(*schema),
        checked,
    };
    let mut rest = list;
    let ghost mut done: int = 0;
    assert(all.take(0) =~= Seq::<OutputModel<C>>::empty());
    assert(held_before + Seq::<(Invocation, OpModel<C>)>::empty() =~= held_before);
    while rest.len() > 0
        invariant
            world.wf(),
            before == old(world)@,
            all == outputs_view(list@),
            0 <= done,
            done + rest@.len() == total,
            all.len() == total,
            checks == (CheckModel {
                systems: systems_view(systems@),
                schema: schema_view(*schema),
                checked,
            }),
            outputs_view(rest@) =~= all.skip(done),
            commit_outputs(before, all.take(done), phase, checks).0 == world@,
            commit_outputs(before, all.take(done), phase, checks).1 is None,
            held_view(held@) == held_before + held_by(all.take(done), phase),
        decreases rest@.len(),
    {
        let ghost left = rest@;
        let ghost now = world@;
        let output = rest.remove(0);
        assert(outputs_view(left)[0] == all.skip(done)[0]);
        assert(output@ == all[done]);
        assert(all.take(done + 1).drop_last() =~= all.take(done));
        assert(outputs_view(rest@) =~= outputs_view(left).drop_first());
        assert(all.skip(done + 1) =~= all.skip(done).drop_first());
        assert(all.take(done + 1).last() == all[done]);
        assert(commit_outputs(before, all.take(done + 1), phase, checks) == commit_output(
            now,
            all[done],
            phase,
            checks,
        ));
        let refusal = commit_one(world, systems, schema, checked, output, phase, held);
        if refusal.is_some() {
            proof {
                lemma_refused_outputs_stop(before, all, phase, checks, done + 1);
            }
            return refusal;
        }
        proof {
            let more = held_back(all[done].ops, all[done].owner, phase == Some(Phase::Settle));
            assert(held_before + held_by(all.take(done), phase) + more =~= held_before + held_by(
                all.take(done + 1),
                phase,
            ));
            done = done + 1;
        }
    }
    assert(all.take(done) =~= all);
    None
}

/// Commits one run: replaces the outputs of its invocations, reconciles what they
/// wrote in place, and records their inputs.
///
/// A run whose recorded inputs went stale is discarded. Its in-place writes
/// already happened, so their revisions are reconciled all the same.
pub fn commit_system_run<C: RelationshipTarget>(
    world: &mut World<C>,
    memo: &mut MemoTable,
    held: &mut Vec<(SystemInvocation, CommandOp<C>)>,
    systems: &Vec<BoxedSystem>,
    schema: &Option<Vec<ShapeDesc>>,
    checked: bool,
    run: SystemRun<C>,
    phase: Option<Phase>,
) -> (outcome: Result<CommitProgress, CommitError>)
    requires
        old(world).wf(),
        old(memo).wf(),
    ensures
        final(world).wf(),
        final(memo).wf(),
        ({
            let before = CommitModel {
                world: old(world)@,
                memo: old(memo)@,
                held: held_view(old(held)@),
            };
            let checks = CheckModel {
                systems: systems_view(systems@),
                schema: schema_view(*schema),
                checked,
            };
            let after = commit_run(before, run@, phase, checks);
            &&& after.0 == (CommitModel {
                world: final(world)@,
                memo: final(memo)@,
                held: held_view(final(held)@),
            })
            &&& match outcome {
                Ok(progress) => {
                    &&& after.1 == Ok::<CommitProgress, RefusalModel>(progress)
                    &&& progress == CommitProgress::of(progress.needs_followup, progress.stale)
                },
                Err(error) => {
                    &&& after.1 == Err::<CommitProgress, RefusalModel>(error@)
                    &&& explained(final(world)@, *schema, error)
                },
            }
        }),
{
    proof {
        reveal(commit_run);
    }
    let before_revision = world.revision_raw();
    let before_mutations = world.mutations_raw();
    let SystemRun { completed: _, outputs: list, memo_updates, writes } = run;
    if !entries_current(world, &memo_updates) {
        world.reconcile_written(writes);
        let changed = world.revision_raw() != before_revision || world.mutations_raw()
            != before_mutations;
        world.run_hooks();
        return Ok(progress(changed, true));
    }
    let mut back: Vec<(SystemInvocation, CommandOp<C>)> = Vec::new();
    assert(held_view(back@) =~= Seq::<(Invocation, OpModel<C>)>::empty());
    if let Some(error) = commit_each(world, systems, schema, checked, list, phase, &mut back) {
        return Err(error);
    }
    let ghost added = back@;
    held.append(&mut back);
    assert(held_view(held@) =~= held_view(old(held)@) + held_view(added));
    assert(held_view(added) =~= held_by(outputs_view(list@), phase));
    let cells = cells_of(&writes);
    world.reconcile_written(writes);
    record_updates(world, memo, memo_updates, &cells);
    let ghost reconciled = world@;
    let removed = world.take_removed_entities();
    if removed.len() > 0 {
        memo.forget_touched(&removed);
    }
    let changed = world.revision_raw() != before_revision || world.mutations_raw()
        != before_mutations;
    world.run_hooks();
    Ok(progress(changed, false))
}

/// Commits several runs in order; the first refusal ends it.
pub open spec fn commit_runs<C: RelationshipTarget>(
    before: CommitModel<C>,
    runs: Seq<RunModel<C>>,
    checks: CheckModel,
) -> (CommitModel<C>, Result<CommitProgress, RefusalModel>)
    decreases runs.len(),
{
    if runs.len() == 0 {
        (before, Ok(CommitProgress::none()))
    } else {
        let done = commit_runs(before, runs.drop_last(), checks);
        match done.1 {
            Err(_) => done,
            Ok(so_far) => {
                let next = commit_run(done.0, runs.last(), None, checks);
                match next.1 {
                    Err(_) => next,
                    Ok(more) => (
                        next.0,
                        Ok(
                            CommitProgress {
                                needs_followup: so_far.needs_followup || more.needs_followup,
                                stale: false,
                                commits: (so_far.commits + more.commits) as u64,
                            },
                        ),
                    ),
                }
            },
        }
    }
}

proof fn lemma_refused_runs_stop<C: RelationshipTarget>(
    before: CommitModel<C>,
    runs: Seq<RunModel<C>>,
    checks: CheckModel,
    done: int,
)
    requires
        0 <= done <= runs.len(),
        commit_runs(before, runs.take(done), checks).1 is Err,
    ensures
        commit_runs(before, runs, checks) == commit_runs(before, runs.take(done), checks),
    decreases runs.len() - done,
{
    if done == runs.len() {
        assert(runs.take(done) =~= runs);
    } else {
        assert(runs.take(done + 1).drop_last() =~= runs.take(done));
        lemma_refused_runs_stop(before, runs, checks, done + 1);
    }
}

/// Commits several runs outside any phase, in order.
pub fn commit_system_runs<C: RelationshipTarget>(
    world: &mut World<C>,
    memo: &mut MemoTable,
    held: &mut Vec<(SystemInvocation, CommandOp<C>)>,
    systems: &Vec<BoxedSystem>,
    schema: &Option<Vec<ShapeDesc>>,
    checked: bool,
    runs: Vec<SystemRun<C>>,
) -> (outcome: Result<CommitProgress, CommitError>)
    requires
        old(world).wf(),
        old(memo).wf(),
    ensures
        final(world).wf(),
        final(memo).wf(),
        ({
            let before = CommitModel {
                world: old(world)@,
                memo: old(memo)@,
                held: held_view(old(held)@),
            };
            let checks = CheckModel {
                systems: systems_view(systems@),
                schema: schema_view(*schema),
                checked,
            };
            let after = commit_runs(before, runs_view(runs@), checks);
            &&& after.0 == (CommitModel {
                world: final(world)@,
                memo: final(memo)@,
                held: held_view(final(held)@),
            })
            &&& match outcome {
                Ok(progress) => after.1 == Ok::<CommitProgress, RefusalModel>(progress),
                Err(error) => after.1 == Err::<CommitProgress, RefusalModel>(error@),
            }
        }),
{
    let ghost before = CommitModel { world: world@, memo: memo@, held: held_view(held@) };
    let ghost checks = CheckModel {
        systems: systems_view(systems@),
        schema: schema_view(*schema),
        checked,
    };
    let ghost all = runs_view(runs@);
    let count = runs.len();
    let mut rest = runs;
    let mut total = progress(false, false);
    let ghost mut done: int = 0;
    assert(all.take(0) =~= Seq::<RunModel<C>>::empty());
    while rest.len() > 0
        invariant
            world.wf(),
            memo.wf(),
            before == (CommitModel {
                world: old(world)@,
                memo: old(memo)@,
                held: held_view(old(held)@),
            }),
            all == runs_view(runs@),
            checks == (CheckModel {
                systems: systems_view(systems@),
                schema: schema_view(*schema),
                checked,
            }),
            0 <= done,
            done + rest@.len() == count,
            all.len() == count,
            total.commits <= done,
            runs_view(rest@) =~= all.skip(done),
            commit_runs(before, all.take(done), checks) == (
                CommitModel { world: world@, memo: memo@, held: held_view(held@) },
                Ok::<CommitProgress, RefusalModel>(total),
            ),
        decreases rest@.len(),
    {
        let ghost left = rest@;
        let run = rest.remove(0);
        assert(runs_view(left)[0] == all.skip(done)[0]);
        assert(run@ == all[done]);
        assert(all.take(done + 1).drop_last() =~= all.take(done));
        assert(all.take(done + 1).last() == all[done]);
        assert(runs_view(rest@) =~= runs_view(left).drop_first());
        assert(all.skip(done + 1) =~= all.skip(done).drop_first());
        match commit_system_run(world, memo, held, systems, schema, checked, run, None) {
            Ok(more) => {
                total = CommitProgress {
                    needs_followup: total.needs_followup || more.needs_followup,
                    stale: false,
                    commits: total.commits + more.commits,
                };
            },
            Err(error) => {
                proof {
                    lemma_refused_runs_stop(before, all, checks, done + 1);
                }
                return Err(error);
            },
        }
        proof {
            done = done + 1;
        }
    }
    assert(all.take(done) =~= all);
    Ok(total)
}

/// A race between a producer and a viewer of the same phase, in words.
pub open spec fn race_wording<C: RelationshipTarget>(component: ComponentId, phase: Phase) -> Seq<
    char,
> {
    "component `"@ + C::label(component) + "` completed an entity that a same-phase ("@
        + phase.label()
        + ") `View` matches: the producing commit is produced and ambiently consumed in the same phase and races the viewer. Move the producer or the consumer across a phase boundary, or make the read a tracked `Query` input."@
}

/// A race between a producer and a viewer of the same phase, in words.
pub fn race_message<C: RelationshipTarget>(component: ComponentId, phase: Phase) -> (text: String)
    ensures
        text@ == race_wording::<C>(component, phase),
{
    let mut text = String::from_str("component `");
    text.append(C::component_name(component));
    text.append("` completed an entity that a same-phase (");
    text.append(phase.name());
    text.append(
        ") `View` matches: the producing commit is produced and ambiently consumed in the same phase and races the viewer. Move the producer or the consumer across a phase boundary, or make the read a tracked `Query` input.",
    );
    text
}

} // verus!
