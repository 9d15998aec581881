//! What a commit leaves, what it holds back, and what it refuses.

use crate::commands::OpModel;
use crate::commit::{
    commit_output, commit_outputs, commit_run, commit_runs, first_misfit, first_race, first_racer,
    held_back, held_by, immediate, memo_after, replace_outputs, updates_current, written_cells,
    written_on, CheckModel, CommitModel, RefusalModel,
};
use crate::component::{Component, ComponentId, RelationshipTarget};
use crate::conformance::{
    can_complete, completes, completes_view, covered, covers, extra, lands_in_view, missing,
    same_phase_conflict,
};
use crate::declare::{ShapeDesc, ShapePartDesc};
use crate::entity::Entity;
use crate::invocation::{untouched, Invocation, SystemId};
use crate::memo::{deps_refreshed, MemoModel};
use crate::model::{Cell, WorldModel};
use crate::param::system_states;
use crate::registry::SystemModel;
use crate::seq_laws::{lemma_joined, lemma_last, lemma_pushed};
use crate::system::{OutputModel, Phase, RunModel};
use vstd::prelude::*;

verus! {

/// Whether a shape has `kind` among its parts, required or optional.
pub open spec fn has_part(shape: ShapeDesc, kind: ComponentId) -> bool {
    (exists|i: int|
        0 <= i < shape.required@.len() && (#[trigger] shape.required@[i]).component == kind) || (
    exists|i: int|
        0 <= i < shape.optional@.len() && (#[trigger] shape.optional@[i]).component == kind)
}

/// Whether `shape` describes `entity` after `kinds` were written on it: each of them
/// is a part of it, and every required part is there.
pub open spec fn describes<C: RelationshipTarget>(
    world: WorldModel<C>,
    shape: ShapeDesc,
    entity: Entity,
    kinds: Seq<ComponentId>,
) -> bool {
    &&& forall|kind: ComponentId| #[trigger] kinds.contains(kind) ==> has_part(shape, kind)
    &&& forall|i: int|
        0 <= i < shape.required@.len() ==> world.entry(
            (#[trigger] shape.required@[i]).component,
            entity,
        ) is Some
}

proof fn lemma_has_part(shape: ShapeDesc, kind: ComponentId)
    ensures
        shape.holds(kind) <==> has_part(shape, kind),
{
    let required = crate::declare::shape_kinds(shape.required@);
    let optional = crate::declare::shape_kinds(shape.optional@);
    if required.contains(kind) {
        let i = choose|i: int| 0 <= i < required.len() && required[i] == kind;
        assert(shape.required@[i].component == kind);
    }
    if optional.contains(kind) {
        let i = choose|i: int| 0 <= i < optional.len() && optional[i] == kind;
        assert(shape.optional@[i].component == kind);
    }
    if exists|i: int|
        0 <= i < shape.required@.len() && (#[trigger] shape.required@[i]).component == kind {
        let i = choose|i: int|
            0 <= i < shape.required@.len() && (#[trigger] shape.required@[i]).component == kind;
        assert(required[i] == kind);
    }
    if exists|i: int|
        0 <= i < shape.optional@.len() && (#[trigger] shape.optional@[i]).component == kind {
        let i = choose|i: int|
            0 <= i < shape.optional@.len() && (#[trigger] shape.optional@[i]).component == kind;
        assert(optional[i] == kind);
    }
}

/// A shape covers a write exactly when every component written is a part of it; the
/// components named as extra are exactly the others.
pub proof fn lemma_covered_by_parts<C: RelationshipTarget>(
    shape: ShapeDesc,
    kinds: Seq<ComponentId>,
    kind: ComponentId,
)
    ensures
        covers(shape, kinds) <==> forall|kind: ComponentId| #[trigger]
            kinds.contains(kind) ==> has_part(shape, kind),
        kinds.contains(kind) && !has_part(shape, kind) ==> extra::<C>(shape, kinds).contains(
            C::label(kind),
        ),
        covered(shape, kinds) + extra::<C>(shape, kinds).len() == kinds.len(),
    decreases kinds.len(),
{
    if kinds.len() > 0 {
        let rest = kinds.drop_last();
        let last = kinds.last();
        lemma_covered_by_parts::<C>(shape, rest, kind);
        lemma_has_part(shape, last);
        lemma_last(kinds, kind);
        lemma_last(kinds, last);
        lemma_pushed(extra::<C>(shape, rest), C::label(last), C::label(kind));
        assert forall|k: ComponentId| #[trigger] kinds.contains(k) <==> (rest.contains(k) || k
            == last) by {
            lemma_last(kinds, k);
        }
        if forall|k: ComponentId| #[trigger] kinds.contains(k) ==> has_part(shape, k) {
            assert(has_part(shape, last));
            assert forall|k: ComponentId| #[trigger] rest.contains(k) implies has_part(
                shape,
                k,
            ) by {
                assert(kinds.contains(k));
            }
        }
        if covers(shape, kinds) {
            assert(covered(shape, rest) <= rest.len());
        }
    }
}

/// The parts named as missing are exactly the required ones that the entity lacks.
pub proof fn lemma_missing_parts<C: RelationshipTarget>(
    world: WorldModel<C>,
    required: Seq<ShapePartDesc>,
    entity: Entity,
    at: int,
)
    ensures
        missing(world, required, entity).len() == 0 <==> forall|i: int|
            0 <= i < required.len() ==> world.entry((#[trigger] required[i]).component, entity)
                is Some,
        0 <= at < required.len() && world.entry(required[at].component, entity) is None ==> missing(
            world,
            required,
            entity,
        ).contains(required[at].name@),
        missing(world, required, entity).len() <= required.len(),
    decreases required.len(),
{
    if required.len() > 0 {
        let rest = required.drop_last();
        let last = required.last();
        lemma_missing_parts(world, rest, entity, at);
        lemma_pushed(missing(world, rest, entity), last.name@, required[at].name@);
        if 0 <= at < rest.len() {
            assert(rest[at] == required[at]);
        }
        if forall|i: int|
            0 <= i < required.len() ==> world.entry((#[trigger] required[i]).component, entity)
                is Some {
            assert forall|i: int| 0 <= i < rest.len() implies world.entry(
                (#[trigger] rest[i]).component,
                entity,
            ) is Some by {
                assert(rest[i] == required[i]);
            }
            assert(world.entry(required[required.len() - 1].component, entity) is Some);
        }
        if missing(world, required, entity).len() == 0 {
            assert(world.entry(last.component, entity) is Some);
            assert forall|i: int| 0 <= i < required.len() implies world.entry(
                (#[trigger] required[i]).component,
                entity,
            ) is Some by {
                if i < rest.len() {
                    assert(rest[i] == required[i]);
                }
            }
        }
    }
}

/// A shape is accepted exactly when it describes the entity.
pub proof fn lemma_complete_shapes<C: RelationshipTarget>(
    world: WorldModel<C>,
    schema: Seq<ShapeDesc>,
    entity: Entity,
    kinds: Seq<ComponentId>,
    at: int,
)
    ensures
        completes(world, schema, entity, kinds, at) <==> describes(
            world,
            schema[at],
            entity,
            kinds,
        ),
{
    lemma_covered_by_parts::<C>(schema[at], kinds, 0);
    lemma_missing_parts(world, schema[at].required@, entity, 0);
}

/// The components counted for an entity are exactly those written on it.
pub proof fn lemma_written_on(written: Seq<Cell>, entity: Entity, kind: ComponentId)
    ensures
        written_on(written, entity).contains(kind) <==> written.contains((kind, entity)),
    decreases written.len(),
{
    if written.len() > 0 {
        let rest = written.drop_last();
        lemma_written_on(rest, entity, kind);
        lemma_last(written, (kind, entity));
        lemma_pushed(written_on(rest, entity), written.last().0, kind);
    }
}

/// Whether some shape describes what was written on `entity`.
pub open spec fn described<C: RelationshipTarget>(
    world: WorldModel<C>,
    schema: Seq<ShapeDesc>,
    written: Seq<Cell>,
    entity: Entity,
) -> bool {
    exists|i: int|
        0 <= i < schema.len() && {
            &&& forall|kind: ComponentId| #[trigger]
                written.contains((kind, entity)) ==> has_part(schema[i], kind)
            &&& forall|j: int|
                0 <= j < schema[i].required@.len() ==> world.entry(
                    (#[trigger] schema[i].required@[j]).component,
                    entity,
                ) is Some
        } && has_index(schema, i)
}

/// Whether `i` is a place in `list`.
pub open spec fn has_index<A>(list: Seq<A>, i: int) -> bool {
    0 <= i < list.len()
}

proof fn lemma_described<C: RelationshipTarget>(
    world: WorldModel<C>,
    schema: Seq<ShapeDesc>,
    written: Seq<Cell>,
    entity: Entity,
)
    ensures
        described(world, schema, written, entity) <==> crate::commit::conforms(
            world,
            schema,
            entity,
            written_on(written, entity),
        ),
{
    let kinds = written_on(written, entity);
    assert forall|kind: ComponentId| #[trigger] kinds.contains(kind) <==> written.contains(
        (kind, entity),
    ) by {
        lemma_written_on(written, entity, kind);
    }
    if described(world, schema, written, entity) {
        let i = choose|i: int|
            0 <= i < schema.len() && {
                &&& forall|kind: ComponentId| #[trigger]
                    written.contains((kind, entity)) ==> has_part(schema[i], kind)
                &&& forall|j: int|
                    0 <= j < schema[i].required@.len() ==> world.entry(
                        (#[trigger] schema[i].required@[j]).component,
                        entity,
                    ) is Some
            } && has_index(schema, i);
        lemma_complete_shapes(world, schema, entity, kinds, i);
        assert forall|kind: ComponentId| #[trigger] kinds.contains(kind) implies has_part(
            schema[i],
            kind,
        ) by {
            assert(written.contains((kind, entity)));
        }
        assert(completes(world, schema, entity, kinds, i));
    }
    if crate::commit::conforms(world, schema, entity, kinds) {
        let i = choose|i: int|
            0 <= i < schema.len() && #[trigger] completes(world, schema, entity, kinds, i);
        lemma_complete_shapes(world, schema, entity, kinds, i);
        assert(has_index(schema, i));
        assert forall|kind: ComponentId| #[trigger] written.contains((kind, entity)) implies has_part(
            schema[i],
            kind,
        ) by {
            assert(kinds.contains(kind));
        }
    }
}

/// A write is refused for its shape exactly when no shape describes one of the
/// entities written; the refusal names the first of them in write order.
pub proof fn lemma_misfits_are_refused<C: RelationshipTarget>(
    world: WorldModel<C>,
    schema: Seq<ShapeDesc>,
    written: Seq<Cell>,
    from: int,
)
    requires
        0 <= from,
    ensures
        first_misfit(world, schema, written, from) is None <==> forall|i: int|
            from <= i < written.len() ==> described(
                world,
                schema,
                written,
                (#[trigger] written[i]).1,
            ),
        first_misfit(world, schema, written, from) matches Some(refusal) ==> exists|i: int|
            from <= i < written.len() && (refusal matches RefusalModel::Shape { entity, .. }
                && entity == (#[trigger] written[i]).1) && !described(
                world,
                schema,
                written,
                written[i].1,
            ) && forall|j: int|
                from <= j < i ==> described(world, schema, written, (#[trigger] written[j]).1),
    decreases written.len() - from,
{
    if from < written.len() {
        lemma_misfits_are_refused(world, schema, written, from + 1);
        lemma_described(world, schema, written, written[from].1);
        let here = written[from];
        if first_misfit(world, schema, written, from) is Some {
            if described(world, schema, written, written[from].1) {
                let refusal = first_misfit(world, schema, written, from)->Some_0;
                let i = choose|i: int|
                    from + 1 <= i < written.len() && (refusal matches RefusalModel::Shape {
                        entity,
                        ..
                    } && entity == (#[trigger] written[i]).1) && !described(
                        world,
                        schema,
                        written,
                        written[i].1,
                    ) && forall|j: int|
                        from + 1 <= j < i ==> described(
                            world,
                            schema,
                            written,
                            (#[trigger] written[j]).1,
                        );
                assert(from <= i < written.len() && refusal is Shape && !described(
                    world,
                    schema,
                    written,
                    written[i].1,
                ));
            }
        }
    }
}

/// Whether a write of `cell` shows up in a view of `system`, whose view of it asks for
/// that component and for others that are all there.
pub open spec fn shows_up<C: RelationshipTarget>(
    world: WorldModel<C>,
    views: Seq<Seq<ComponentId>>,
    cell: Cell,
) -> bool {
    exists|i: int|
        0 <= i < views.len() && (#[trigger] views[i]).contains(cell.0) && forall|kind: ComponentId|
            #[trigger]
            views[i].contains(kind) ==> world.entry(kind, cell.1) is Some
}

proof fn lemma_shows_up<C: RelationshipTarget>(
    world: WorldModel<C>,
    views: Seq<Seq<ComponentId>>,
    cell: Cell,
)
    ensures
        shows_up(world, views, cell) <==> lands_in_view(world, views, cell.0, cell.1),
{
    if shows_up(world, views, cell) {
        let i = choose|i: int|
            0 <= i < views.len() && (#[trigger] views[i]).contains(cell.0) && forall|
                kind: ComponentId,
            | #[trigger]
                views[i].contains(kind) ==> world.entry(kind, cell.1) is Some;
        assert forall|j: int| 0 <= j < views[i].len() implies world.has(
            #[trigger] views[i][j],
            cell.1,
        ) by {
            assert(views[i].contains(views[i][j]));
        }
        assert(completes_view(world, views[i], cell.0, cell.1));
    }
    if lands_in_view(world, views, cell.0, cell.1) {
        let i = choose|i: int|
            0 <= i < views.len() && completes_view(world, #[trigger] views[i], cell.0, cell.1);
        assert forall|kind: ComponentId| #[trigger] views[i].contains(kind) implies world.entry(
            kind,
            cell.1,
        ) is Some by {
            let j = choose|j: int| 0 <= j < views[i].len() && views[i][j] == kind;
            assert(world.has(views[i][j], cell.1));
        }
    }
}

/// Whether system `viewer` could miss a write of `cell` in `phase`: it is another one
/// of that phase, a view of it shows the entity, and it is not known to be without rows.
pub open spec fn misses_write<C: RelationshipTarget>(
    world: WorldModel<C>,
    systems: Seq<SystemModel>,
    writer: SystemId,
    phase: Phase,
    cell: Cell,
    viewer: int,
) -> bool {
    &&& viewer != writer.0
    &&& systems[viewer].phase == phase
    &&& shows_up(world, systems[viewer].views, cell)
    &&& !(system_states(world, systems[viewer].params) matches Ok(states) && states.len() == 0)
}

proof fn lemma_racers<C: RelationshipTarget>(
    world: WorldModel<C>,
    systems: Seq<SystemModel>,
    writer: SystemId,
    phase: Phase,
    cell: Cell,
    from: int,
)
    requires
        0 <= from,
        systems.len() <= usize::MAX,
    ensures
        first_racer(world, systems, writer, phase, cell, from) is None <==> forall|i: int|
            from <= i < systems.len() ==> !#[trigger] misses_write(
                world,
                systems,
                writer,
                phase,
                cell,
                i,
            ),
        first_racer(world, systems, writer, phase, cell, from) matches Some(
            RefusalModel::Race { component, viewer, phase: at },
        ) ==> component == cell.0 && at == phase && from <= viewer < systems.len() && misses_write(
            world,
            systems,
            writer,
            phase,
            cell,
            viewer as int,
        ) && forall|i: int|
            from <= i < viewer ==> !#[trigger] misses_write(world, systems, writer, phase, cell, i),
    decreases systems.len() - from,
{
    if from < systems.len() {
        lemma_shows_up(world, systems[from].views, cell);
        lemma_racers(world, systems, writer, phase, cell, from + 1);
        assert(first_racer(world, systems, writer, phase, cell, from) is None ==> !misses_write(
            world,
            systems,
            writer,
            phase,
            cell,
            from,
        ));
        if !misses_write(world, systems, writer, phase, cell, from) {
            assert(first_racer(world, systems, writer, phase, cell, from) == first_racer(
                world,
                systems,
                writer,
                phase,
                cell,
                from + 1,
            ));
        }
    }
}

/// A write is refused as a race exactly when some system of the same phase, other than
/// the writer, could miss it.
pub proof fn lemma_races_are_refused<C: RelationshipTarget>(
    world: WorldModel<C>,
    systems: Seq<SystemModel>,
    writer: SystemId,
    phase: Phase,
    written: Seq<Cell>,
    from: int,
)
    requires
        0 <= from,
        systems.len() <= usize::MAX,
    ensures
        first_race(world, systems, writer, phase, written, from) is None <==> forall|
            c: int,
            viewer: int,
        |
            from <= c < written.len() && 0 <= viewer < systems.len() ==> !#[trigger] misses_write(
                world,
                systems,
                writer,
                phase,
                written[c],
                viewer,
            ),
    decreases written.len() - from,
{
    if from < written.len() {
        lemma_races_are_refused(world, systems, writer, phase, written, from + 1);
        lemma_racers(world, systems, writer, phase, written[from], 0);
        if first_race(world, systems, writer, phase, written, from) is None {
            assert forall|c: int, viewer: int|
                from <= c < written.len() && 0 <= viewer < systems.len() implies !#[trigger] misses_write(
                world,
                systems,
                writer,
                phase,
                written[c],
                viewer,
            ) by {}
        }
    }
}

/// Writes are refused exactly where checks are on, and a declared schema describes one
/// of the entities by no shape or, within a phase, another system could miss a write.
pub proof fn lemma_what_checks_refuse<C: RelationshipTarget>(
    checks: CheckModel,
    world: WorldModel<C>,
    writer: SystemId,
    phase: Option<Phase>,
    written: Seq<Cell>,
)
    requires
        checks.systems.len() <= usize::MAX,
    ensures
        checks.refuses(world, writer, phase, written) is None <==> (checks.checked ==> {
            &&& checks.schema matches Some(schema) ==> forall|i: int|
                0 <= i < written.len() ==> described(
                    world,
                    schema,
                    written,
                    (#[trigger] written[i]).1,
                )
            &&& phase matches Some(phase) ==> forall|c: int, viewer: int|
                0 <= c < written.len() && 0 <= viewer < checks.systems.len()
                    ==> !#[trigger] misses_write(
                    world,
                    checks.systems,
                    writer,
                    phase,
                    written[c],
                    viewer,
                )
        }),
{
    if let Some(schema) = checks.schema {
        lemma_misfits_are_refused(world, schema, written, 0);
    }
    if let Some(phase) = phase {
        lemma_races_are_refused(world, checks.systems, writer, phase, written, 0);
    }
}

/// Two systems of one phase conflict when the first declares a component that a view of
/// the second asks for, and some shape has all that the view asks for; never when the
/// first declares none of it, or declares nothing at all, or the view asks for nothing.
pub proof fn lemma_declared_conflicts(
    schema: Seq<ShapeDesc>,
    producer: SystemModel,
    viewer: SystemModel,
    view: int,
    shape: int,
    kind: ComponentId,
)
    requires
        0 <= view < viewer.views.len(),
    ensures
        producer.outputs matches Some(declared) && declared.contains(kind)
            && viewer.views[view].contains(kind) && 0 <= shape < schema.len() && (forall|
            asked: ComponentId,
        | #[trigger]
            viewer.views[view].contains(asked) ==> has_part(schema[shape], asked))
            ==> same_phase_conflict(schema, producer, viewer),
        producer.outputs is None ==> !same_phase_conflict(schema, producer, viewer),
        same_phase_conflict(schema, producer, viewer) ==> exists|at: int, shared: ComponentId, fit: int|
            0 <= at < viewer.views.len() && #[trigger] viewer.views[at].contains(shared)
                && producer.outputs->Some_0.contains(shared) && 0 <= fit < schema.len() && #[trigger] holds_view(
                schema[fit],
                viewer.views[at],
            ),
{
    if let Some(declared) = producer.outputs {
        let required = viewer.views[view];
        if declared.contains(kind) && required.contains(kind) && 0 <= shape < schema.len() && (
        forall|asked: ComponentId| #[trigger]
            required.contains(asked) ==> has_part(schema[shape], asked)) {
            assert forall|i: int| 0 <= i < required.len() implies schema[shape].holds(
                #[trigger] required[i],
            ) by {
                assert(required.contains(required[i]));
                lemma_has_part(schema[shape], required[i]);
            }
            let i = choose|i: int| 0 <= i < required.len() && required[i] == kind;
            assert(declared.contains(required[i]));
            let d = choose|d: int| 0 <= d < declared.len() && declared[d] == kind;
            assert(schema[shape].holds(required[i]));
            assert(schema[shape].holds(declared[d]));
            assert(can_complete(schema, declared, viewer.views[view]));
        }
        if same_phase_conflict(schema, producer, viewer) {
            let at = choose|at: int|
                0 <= at < viewer.views.len() && can_complete(
                    schema,
                    declared,
                    #[trigger] viewer.views[at],
                );
            let required = viewer.views[at];
            let i = choose|i: int|
                0 <= i < required.len() && declared.contains(#[trigger] required[i]);
            let fit = choose|fit: int|
                0 <= fit < schema.len() && crate::conformance::holds_all(
                    #[trigger] schema[fit],
                    required,
                ) && crate::conformance::holds_any(schema[fit], declared);
            assert forall|asked: ComponentId| #[trigger] required.contains(asked) implies has_part(
                schema[fit],
                asked,
            ) by {
                let j = choose|j: int| 0 <= j < required.len() && required[j] == asked;
                assert(schema[fit].holds(required[j]));
                lemma_has_part(schema[fit], asked);
            }
            assert(viewer.views[at].contains(required[i]));
            assert(holds_view(schema[fit], viewer.views[at]));
        }
    }
}

/// Whether all that a view asks for are parts of `shape`.
pub open spec fn holds_view(shape: ShapeDesc, view: Seq<ComponentId>) -> bool {
    forall|asked: ComponentId| #[trigger] view.contains(asked) ==> has_part(shape, asked)
}

/// At the end of a settle, what a run inserts or spawns is held back under its name and
/// the rest applies; in any other phase all applies and nothing is held back.
pub proof fn lemma_what_is_held_back<C: Component>(
    ops: Seq<OpModel<C>>,
    owner: Invocation,
    defer: bool,
    op: OpModel<C>,
    by: Invocation,
)
    ensures
        immediate(ops, defer).contains(op) <==> ops.contains(op) && (defer ==> op is RemoveEntity
            || op is RemoveComponent),
        held_back(ops, owner, defer).contains((by, op)) <==> by == owner && ops.contains(op)
            && defer && (op is Insert || op is Spawn),
        immediate(ops, defer).len() + held_back(ops, owner, defer).len() == ops.len(),
    decreases ops.len(),
{
    if ops.len() > 0 {
        let rest = ops.drop_last();
        lemma_what_is_held_back(rest, owner, defer, op, by);
        lemma_last(ops, op);
        lemma_pushed(immediate(rest, defer), ops.last(), op);
        lemma_pushed(held_back(rest, owner, defer), (owner, ops.last()), (by, op));
    }
}

/// Splitting keeps the order: what stands earlier in the buffer is applied, or held
/// back, earlier.
pub proof fn lemma_splitting_keeps_order<C: Component>(
    first: Seq<OpModel<C>>,
    second: Seq<OpModel<C>>,
    owner: Invocation,
    defer: bool,
)
    ensures
        immediate(first + second, defer) == immediate(first, defer) + immediate(second, defer),
        held_back(first + second, owner, defer) == held_back(first, owner, defer) + held_back(
            second,
            owner,
            defer,
        ),
    decreases second.len(),
{
    if second.len() == 0 {
        assert(first + second =~= first);
        assert(immediate(first, defer) + Seq::<OpModel<C>>::empty() =~= immediate(first, defer));
        assert(held_back(first, owner, defer) + Seq::<(Invocation, OpModel<C>)>::empty()
            =~= held_back(first, owner, defer));
    } else {
        assert((first + second).drop_last() =~= first + second.drop_last());
        lemma_splitting_keeps_order(first, second.drop_last(), owner, defer);
        assert(immediate(first + second, defer) =~= immediate(first, defer) + immediate(
            second,
            defer,
        ));
        assert(held_back(first + second, owner, defer) =~= held_back(first, owner, defer)
            + held_back(second, owner, defer));
    }
}

/// The operations of a run that are held back are those of its outputs that insert or
/// spawn, when it ran at the end of a settle.
pub proof fn lemma_what_a_run_holds_back<C: RelationshipTarget>(
    list: Seq<OutputModel<C>>,
    phase: Option<Phase>,
    by: Invocation,
    op: OpModel<C>,
)
    ensures
        held_by(list, phase).contains((by, op)) <==> phase == Some(Phase::Settle) && (op is Insert
            || op is Spawn) && exists|i: int|
            0 <= i < list.len() && (#[trigger] list[i]).owner == by && list[i].ops.contains(op),
    decreases list.len(),
{
    if list.len() > 0 {
        let rest = list.drop_last();
        let last = list.last();
        let defer = phase == Some(Phase::Settle);
        lemma_what_a_run_holds_back(rest, phase, by, op);
        lemma_joined(held_by(rest, phase), held_back(last.ops, last.owner, defer), (by, op));
        lemma_what_is_held_back(last.ops, last.owner, defer, op, by);
        if exists|i: int|
            0 <= i < list.len() && (#[trigger] list[i]).owner == by && list[i].ops.contains(op) {
            let i = choose|i: int|
                0 <= i < list.len() && (#[trigger] list[i]).owner == by && list[i].ops.contains(op);
            if i < rest.len() {
                assert(rest[i].owner == by);
            }
        }
        if exists|i: int|
            0 <= i < rest.len() && (#[trigger] rest[i]).owner == by && rest[i].ops.contains(op) {
            let i = choose|i: int|
                0 <= i < rest.len() && (#[trigger] rest[i]).owner == by && rest[i].ops.contains(op);
            assert(list[i].owner == by);
        }
        if last.owner == by && last.ops.contains(op) {
            assert(list[list.len() - 1].owner == by);
        }
    }
}

/// What a run records of itself: the last record for each invocation, input by input,
/// where an input that the run itself wrote in place counts at the revision that the
/// write gave it. Every other invocation keeps its record.
pub proof fn lemma_records_after_a_run<C: RelationshipTarget>(
    world: WorldModel<C>,
    memo: Map<Invocation, MemoModel>,
    updates: Seq<(Invocation, MemoModel)>,
    cells: Seq<Cell>,
    owner: Invocation,
)
    ensures
        ({
            let after = memo_after(world, memo, updates, cells);
            &&& (forall|i: int| 0 <= i < updates.len() ==> (#[trigger] updates[i]).0 != owner)
                ==> (after.contains_key(owner) <==> memo.contains_key(owner)) && (
            memo.contains_key(owner) ==> after[owner] == memo[owner])
            &&& forall|i: int|
                0 <= i < updates.len() && (#[trigger] updates[i]).0 == owner && (forall|j: int|
                    i < j < updates.len() ==> (#[trigger] updates[j]).0 != owner)
                    ==> after.contains_key(owner) && observed_again(
                    world,
                    updates[i].1,
                    after[owner],
                    cells,
                )
        }),
    decreases updates.len(),
{
    if updates.len() > 0 {
        let rest = updates.drop_last();
        let last = updates.last();
        lemma_records_after_a_run(world, memo, rest, cells, owner);
        let after = memo_after(world, memo, updates, cells);
        if forall|i: int| 0 <= i < updates.len() ==> (#[trigger] updates[i]).0 != owner {
            assert forall|i: int| 0 <= i < rest.len() implies (#[trigger] rest[i]).0 != owner by {
                assert(rest[i] == updates[i]);
            }
            assert(updates[updates.len() - 1].0 != owner);
        }
        assert forall|i: int|
            0 <= i < updates.len() && (#[trigger] updates[i]).0 == owner && (forall|j: int|
                i < j < updates.len() ==> (#[trigger] updates[j]).0 != owner) implies after.contains_key(
            owner,
        ) && observed_again(world, updates[i].1, after[owner], cells) by {
            if i < rest.len() {
                assert(rest[i] == updates[i]);
                assert(updates[updates.len() - 1].0 != owner);
                assert forall|j: int| i < j < rest.len() implies (#[trigger] rest[j]).0 != owner by {
                    assert(rest[j] == updates[j]);
                }
            } else {
                assert(after[owner].deps == deps_refreshed(world, last.1.deps, cells));
            }
        }
    }
}

/// Whether `after` records what `before` does, with the rows in `cells` at their present
/// revisions.
pub open spec fn observed_again<C: RelationshipTarget>(
    world: WorldModel<C>,
    before: MemoModel,
    after: MemoModel,
    cells: Seq<Cell>,
) -> bool {
    &&& after.planned_revision == before.planned_revision
    &&& after.deps.len() == before.deps.len()
    &&& forall|i: int|
        0 <= i < before.deps.len() ==> ({
            let dep = #[trigger] before.deps[i];
            let again = after.deps[i];
            &&& again.component == dep.component
            &&& again.entity == dep.entity
            &&& match dep.entity {
                Some(row) => match world.entry(dep.component, row) {
                    Some(entry) => if cells.contains((dep.component, row)) {
                        again.revision == entry.revision && !again.absent
                    } else {
                        again == dep
                    },
                    None => again == dep,
                },
                None => again == dep,
            }
        })
}

/// What a commit of a run leaves, unless it is refused. Stale means that some input it
/// recorded no longer holds; then nothing is recorded or held back. Otherwise what it
/// held back stands behind what was held before, and every record stands unless a row
/// of its invocation was removed. Another pass is due exactly when something changed.
/// Hooks that became due have run.
pub proof fn lemma_what_a_commit_leaves<C: RelationshipTarget>(
    before: CommitModel<C>,
    run: RunModel<C>,
    phase: Option<Phase>,
    checks: CheckModel,
    owner: Invocation,
)
    requires
        commit_run(before, run, phase, checks).1 is Ok,
    ensures
        ({
            let after = commit_run(before, run, phase, checks).0;
            let progress = commit_run(before, run, phase, checks).1->Ok_0;
            let stale = exists|i: int, j: int|
                0 <= i < run.updates.len() && 0 <= j < run.updates[i].1.deps.len()
                    && !(#[trigger] run.updates[i].1.deps[j]).holds(before.world);
            &&& progress.stale <==> stale
            &&& progress.needs_followup <==> after.world.revision != before.world.revision
                || after.world.mutations != before.world.mutations
            &&& progress.commits == if progress.needs_followup {
                1u64
            } else {
                0u64
            }
            &&& after.world.hooks.len() == 0
            &&& stale ==> after.memo == before.memo && after.held == before.held
            &&& !stale ==> {
                let world = commit_outputs(
                    before.world,
                    run.outputs,
                    phase,
                    checks,
                ).0.reconcile_each(run.writes);
                &&& after.held == before.held + held_by(run.outputs, phase)
                &&& after.world.removed.len() == 0
                &&& after.world.stores == world.stores
                &&& after.memo.contains_key(owner) <==> memo_after(
                    world,
                    before.memo,
                    run.updates,
                    written_cells::<C>(run.writes),
                ).contains_key(owner) && !exists|i: int|
                    0 <= i < owner.keys.len() && world.removed.contains(#[trigger] owner.keys[i])
                &&& after.memo.contains_key(owner) ==> after.memo[owner] == memo_after(
                    world,
                    before.memo,
                    run.updates,
                    written_cells::<C>(run.writes),
                )[owner]
            }
        }),
{
    reveal(commit_run);
    let stale = exists|i: int, j: int|
        0 <= i < run.updates.len() && 0 <= j < run.updates[i].1.deps.len()
            && !(#[trigger] run.updates[i].1.deps[j]).holds(before.world);
    assert(stale <==> !updates_current(before.world, run.updates)) by {
        if !updates_current(before.world, run.updates) {
            let i = choose|i: int|
                0 <= i < run.updates.len() && !crate::memo::deps_hold(
                    before.world,
                    (#[trigger] run.updates[i]).1.deps,
                );
            let deps = run.updates[i].1.deps;
            let j = choose|j: int| 0 <= j < deps.len() && !(#[trigger] deps[j]).holds(before.world);
            assert(!run.updates[i].1.deps[j].holds(before.world));
        }
        if stale {
            let (i, j) = choose|i: int, j: int|
                0 <= i < run.updates.len() && 0 <= j < run.updates[i].1.deps.len()
                    && !(#[trigger] run.updates[i].1.deps[j]).holds(before.world);
            assert(!crate::memo::deps_hold(before.world, run.updates[i].1.deps));
        }
    }
}

/// The cells of what was written in place, one for each write.
pub proof fn lemma_cells_of_writes<C: RelationshipTarget>(
    writes: Seq<(Entity, C::Model)>,
    at: int,
)
    ensures
        written_cells::<C>(writes).len() == writes.len(),
        0 <= at < writes.len() ==> written_cells::<C>(writes)[at] == (
            C::kind(writes[at].1),
            writes[at].0,
        ),
{
}

/// A commit of one output ends with no write left to check; where it is refused by an
/// operation the error is that operation's.
pub proof fn lemma_checks_see_every_write<C: RelationshipTarget>(
    world: WorldModel<C>,
    output: OutputModel<C>,
    phase: Option<Phase>,
    checks: CheckModel,
)
    ensures
        ({
            let replaced = replace_outputs(world, output, phase == Some(Phase::Settle));
            let done = commit_output(world, output, phase, checks);
            match replaced.1 {
                Err(error) => done == (replaced.0, Some(RefusalModel::Apply(error))),
                Ok(_) => {
                    &&& done.0.written.len() == 0
                    &&& done.0.stores == replaced.0.stores
                    &&& done.1 == checks.refuses(
                        done.0,
                        output.owner.system,
                        phase,
                        replaced.0.written,
                    )
                },
            }
        }),
{
    reveal(commit_output);
}

/// Runs that are committed in a row are committed one behind the other, up to the first
/// refusal; another pass is due when one of them asks for it, and their commits add up.
pub proof fn lemma_runs_are_committed_in_turn<C: RelationshipTarget>(
    before: CommitModel<C>,
    runs: Seq<RunModel<C>>,
    last: RunModel<C>,
    checks: CheckModel,
)
    ensures
        ({
            let done = commit_runs(before, runs, checks);
            let all = commit_runs(before, runs.push(last), checks);
            match done.1 {
                Err(_) => all == done,
                Ok(so_far) => {
                    let next = commit_run(done.0, last, None, checks);
                    &&& all.0 == next.0
                    &&& all.1 is Err <==> next.1 is Err
                    &&& all.1 matches Ok(total) ==> {
                        let more = next.1->Ok_0;
                        &&& total.needs_followup <==> so_far.needs_followup || more.needs_followup
                        &&& so_far.commits + more.commits <= u64::MAX ==> total.commits
                            == so_far.commits + more.commits
                    }
                },
            }
        }),
{
    assert(runs.push(last).drop_last() =~= runs);
}

/// The records that stay when entities are gone are those of invocations that none of
/// them is a row of.
pub proof fn lemma_records_of_gone_rows_go<V>(
    memo: Map<Invocation, V>,
    gone: Seq<Entity>,
    owner: Invocation,
)
    ensures
        untouched(memo, gone).contains_key(owner) <==> memo.contains_key(owner) && !exists|i: int|
            0 <= i < owner.keys.len() && gone.contains(#[trigger] owner.keys[i]),
        untouched(memo, gone).contains_key(owner) ==> untouched(memo, gone)[owner] == memo[owner],
{
}

} // verus!
