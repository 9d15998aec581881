//! Checks on derived writes: the shape of what was written, and whether a view
//! of the same phase could have missed it.

use crate::component::{ComponentId, RelationshipTarget};
use crate::declare::{ShapeDesc, ShapePartDesc};
use crate::entity::Entity;
use crate::keys::lists;
use crate::model::{Cell, WorldModel};
use crate::registry::{BoxedSystem, SystemModel};
use crate::text::{decimal, decimal_text, join_texts, joined_text, texts_view};
use crate::world::World;
use vstd::prelude::*;
use vstd::string::StringExecFns;

verus! {

/// How many of `kinds` are part of `shape`.
pub open spec fn covered(shape: ShapeDesc, kinds: Seq<ComponentId>) -> nat
    decreases kinds.len(),
{
    if kinds.len() == 0 {
        0
    } else {
        covered(shape, kinds.drop_last()) + if shape.holds(kinds.last()) {
            1nat
        } else {
            0nat
        }
    }
}

/// Whether `shape` covers all of `kinds`.
pub open spec fn covers(shape: ShapeDesc, kinds: Seq<ComponentId>) -> bool {
    covered(shape, kinds) == kinds.len()
}

/// The names of the parts in `required` that `entity` lacks.
pub open spec fn missing<C: RelationshipTarget>(
    world: WorldModel<C>,
    required: Seq<ShapePartDesc>,
    entity: Entity,
) -> Seq<Seq<char>>
    decreases required.len(),
{
    if required.len() == 0 {
        Seq::empty()
    } else {
        let rest = missing(world, required.drop_last(), entity);
        if world.has(required.last().component, entity) {
            rest
        } else {
            rest.push(required.last().name@)
        }
    }
}

/// The names of the components in `kinds` that are no part of `shape`.
pub open spec fn extra<C: RelationshipTarget>(shape: ShapeDesc, kinds: Seq<ComponentId>) -> Seq<
    Seq<char>,
>
    decreases kinds.len(),
{
    if kinds.len() == 0 {
        Seq::empty()
    } else {
        let rest = extra::<C>(shape, kinds.drop_last());
        if shape.holds(kinds.last()) {
            rest
        } else {
            rest.push(C::label(kinds.last()))
        }
    }
}

/// Why a write does not conform to a schema.
#[derive(Debug)]
pub enum ShapeError {
    /// The write fits a shape, but required components are absent.
    Incomplete { shape: usize, missing: Vec<&'static str> },
    /// The write fits no shape; the named one comes nearest.
    Unmatched { shape: usize, extra: Vec<&'static str> },
    /// The schema declares no shapes.
    NoShapes,
}

/// Whether shape `at` covers `kinds` and is complete on `entity`.
pub open spec fn completes<C: RelationshipTarget>(
    world: WorldModel<C>,
    schema: Seq<ShapeDesc>,
    entity: Entity,
    kinds: Seq<ComponentId>,
    at: int,
) -> bool {
    covers(schema[at], kinds) && missing(world, schema[at].required@, entity).len() == 0
}

/// Whether `error` is the reason why a write of `kinds` on `entity` does not
/// conform: among the shapes that cover the write, the first with the fewest
/// missing parts; when there is none, the first shape that covers most.
pub open spec fn shape_refused<C: RelationshipTarget>(
    world: WorldModel<C>,
    schema: Seq<ShapeDesc>,
    entity: Entity,
    kinds: Seq<ComponentId>,
    error: ShapeError,
) -> bool {
    &&& forall|i: int| 0 <= i < schema.len() ==> !completes(world, schema, entity, kinds, i)
    &&& match error {
        ShapeError::Incomplete { shape, missing: names } => {
            &&& shape < schema.len()
            &&& covers(schema[shape as int], kinds)
            &&& texts_view(names@) == missing(world, schema[shape as int].required@, entity)
            &&& forall|i: int|
                0 <= i < schema.len() && covers(#[trigger] schema[i], kinds) ==> names@.len()
                    <= missing(world, schema[i].required@, entity).len() && (i < shape
                    ==> names@.len() < missing(world, schema[i].required@, entity).len())
        },
        ShapeError::Unmatched { shape, extra: names } => {
            &&& shape < schema.len()
            &&& texts_view(names@) == extra::<C>(schema[shape as int], kinds)
            &&& forall|i: int|
                0 <= i < schema.len() ==> !covers(#[trigger] schema[i], kinds) && covered(
                    schema[i],
                    kinds,
                ) <= covered(schema[shape as int], kinds) && (i < shape ==> covered(
                    schema[i],
                    kinds,
                ) < covered(schema[shape as int], kinds))
        },
        ShapeError::NoShapes => schema.len() == 0,
    }
}

fn count_covered(shape: &ShapeDesc, kinds: &Vec<ComponentId>) -> (count: usize)
    ensures
        count == covered(*shape, kinds@),
        count <= kinds@.len(),
{
    let mut count: usize = 0;
    let mut i: usize = 0;
    assert(kinds@.take(0) =~= Seq::<ComponentId>::empty());
    while i < kinds.len()
        invariant
            i <= kinds@.len(),
            count <= i,
            count == covered(*shape, kinds@.take(i as int)),
        decreases kinds@.len() - i,
    {
        assert(kinds@.take(i + 1).drop_last() =~= kinds@.take(i as int));
        if shape.contains(kinds[i]) {
            count = count + 1;
        }
        i = i + 1;
    }
    assert(kinds@.take(kinds@.len() as int) =~= kinds@);
    count
}

fn missing_parts<C: RelationshipTarget>(
    world: &World<C>,
    required: &Vec<ShapePartDesc>,
    entity: Entity,
) -> (names: Vec<&'static str>)
    ensures
        texts_view(names@) == missing(world@, required@, entity),
{
    let mut names: Vec<&'static str> = Vec::new();
    let mut i: usize = 0;
    assert(required@.take(0) =~= Seq::<ShapePartDesc>::empty());
    assert(texts_view(names@) =~= Seq::<Seq<char>>::empty());
    while i < required.len()
        invariant
            i <= required@.len(),
            texts_view(names@) == missing(world@, required@.take(i as int), entity),
        decreases required@.len() - i,
    {
        assert(required@.take(i + 1).drop_last() =~= required@.take(i as int));
        if !world.has(required[i].component, entity) {
            let ghost before = names@;
            names.push(required[i].name);
            assert(texts_view(names@) =~= texts_view(before).push(required@[i as int].name@));
        }
        i = i + 1;
    }
    assert(required@.take(required@.len() as int) =~= required@);
    names
}

fn extra_parts<C: RelationshipTarget>(shape: &ShapeDesc, kinds: &Vec<ComponentId>) -> (names: Vec<
    &'static str,
>)
    ensures
        texts_view(names@) == extra::<C>(*shape, kinds@),
{
    let mut names: Vec<&'static str> = Vec::new();
    let mut i: usize = 0;
    assert(kinds@.take(0) =~= Seq::<ComponentId>::empty());
    assert(texts_view(names@) =~= Seq::<Seq<char>>::empty());
    while i < kinds.len()
        invariant
            i <= kinds@.len(),
            texts_view(names@) == extra::<C>(*shape, kinds@.take(i as int)),
        decreases kinds@.len() - i,
    {
        assert(kinds@.take(i + 1).drop_last() =~= kinds@.take(i as int));
        if !shape.contains(kinds[i]) {
            let ghost before = names@;
            let name = C::component_name(kinds[i]);
            names.push(name);
            assert(texts_view(names@) =~= texts_view(before).push(name@));
        }
        i = i + 1;
    }
    assert(kinds@.take(kinds@.len() as int) =~= kinds@);
    names
}

/// Shape conformance of one entity's write bundle: the bundle must fit inside
/// some declared shape, and that shape's required components must all be present
/// on the entity after the write.
pub fn check_shape_conformance<C: RelationshipTarget>(
    world: &World<C>,
    schema: &Vec<ShapeDesc>,
    entity: Entity,
    kinds: &Vec<ComponentId>,
) -> (outcome: Result<(), ShapeError>)
    ensures
        match outcome {
            Ok(_) => exists|i: int|
                0 <= i < schema@.len() && #[trigger] completes(
                    world@,
                    schema@,
                    entity,
                    kinds@,
                    i,
                ),
            Err(error) => shape_refused(world@, schema@, entity, kinds@, error),
        },
{
    let mut best: Option<(usize, usize)> = None;
    let mut nearest: Option<(usize, Vec<&'static str>)> = None;
    let mut i: usize = 0;
    while i < schema.len()
        invariant
            i <= schema@.len(),
            forall|j: int| 0 <= j < i ==> !completes(world@, schema@, entity, kinds@, j),
            match nearest {
                Some((shape, names)) => {
                    &&& shape < i
                    &&& covers(schema@[shape as int], kinds@)
                    &&& texts_view(names@) == missing(
                        world@,
                        schema@[shape as int].required@,
                        entity,
                    )
                    &&& forall|j: int|
                        0 <= j < i && covers(#[trigger] schema@[j], kinds@) ==> names@.len()
                            <= missing(world@, schema@[j].required@, entity).len() && (j < shape
                            ==> names@.len() < missing(world@, schema@[j].required@, entity).len())
                },
                None => forall|j: int| 0 <= j < i ==> !covers(#[trigger] schema@[j], kinds@),
            },
            match best {
                Some((shape, count)) => {
                    &&& shape < i
                    &&& count == covered(schema@[shape as int], kinds@)
                    &&& forall|j: int|
                        0 <= j < i && !covers(#[trigger] schema@[j], kinds@) ==> covered(
                            schema@[j],
                            kinds@,
                        ) <= count && (j < shape ==> covered(schema@[j], kinds@) < count)
                },
                None => forall|j: int| 0 <= j < i ==> covers(#[trigger] schema@[j], kinds@),
            },
        decreases schema@.len() - i,
    {
        let count = count_covered(&schema[i], kinds);
        if count == kinds.len() {
            let names = missing_parts(world, &schema[i].required, entity);
            assert(texts_view(names@).len() == names@.len());
            if names.len() == 0 {
                assert(completes(world@, schema@, entity, kinds@, i as int));
                return Ok(());
            }
            let nearer = match &nearest {
                None => true,
                Some((_, known)) => names.len() < known.len(),
            };
            if nearer {
                nearest = Some((i, names));
            }
        } else {
            let better = match best {
                None => true,
                Some((_, known)) => count > known,
            };
            if better {
                best = Some((i, count));
            }
        }
        i = i + 1;
    }
    if let Some((shape, names)) = nearest {
        return Err(ShapeError::Incomplete { shape, missing: names });
    }
    match best {
        Some((shape, _)) => {
            let names = extra_parts::<C>(&schema[shape], kinds);
            Err(ShapeError::Unmatched { shape, extra: names })
        },
        None => {
            assert(schema@.len() == 0) by {
                if schema@.len() > 0 {
                    assert(covers(schema@[0], kinds@));
                }
            }
            Err(ShapeError::NoShapes)
        },
    }
}

/// The names of `kinds`.
pub open spec fn kind_names<C: RelationshipTarget>(kinds: Seq<ComponentId>) -> Seq<Seq<char>> {
    kinds.map_values(|kind: ComponentId| C::label(kind))
}

fn names_of<C: RelationshipTarget>(kinds: &Vec<ComponentId>) -> (names: Vec<&'static str>)
    ensures
        texts_view(names@) == kind_names::<C>(kinds@),
{
    let mut names: Vec<&'static str> = Vec::new();
    let mut i: usize = 0;
    while i < kinds.len()
        invariant
            i <= kinds@.len(),
            texts_view(names@) =~= kind_names::<C>(kinds@.take(i as int)),
        decreases kinds@.len() - i,
    {
        let name = C::component_name(kinds[i]);
        let ghost before = names@;
        names.push(name);
        i = i + 1;
        assert(texts_view(names@) =~= texts_view(before).push(name@));
        assert(kind_names::<C>(kinds@.take(i as int)) =~= kind_names::<C>(
            kinds@.take(i - 1),
        ).push(name@));
    }
    assert(kinds@.take(kinds@.len() as int) =~= kinds@);
    names
}

impl ShapeError {
    /// The error in words.
    pub open spec fn wording<C: RelationshipTarget>(
        self,
        schema: Seq<ShapeDesc>,
        entity: Entity,
        kinds: Seq<ComponentId>,
        writer: Seq<char>,
    ) -> Seq<char> {
        let id = decimal(entity.id() as nat);
        let written = joined_text(kind_names::<C>(kinds), ", "@);
        match self {
            ShapeError::Incomplete { shape, missing } => "system `"@ + writer + "` wrote entity "@
                + id + " as shape `"@ + schema[shape as int].name@
                + "` but left required component(s) missing: "@ + joined_text(
                texts_view(missing@),
                ", "@,
            ),
            ShapeError::Unmatched { shape, extra } => "system `"@ + writer + "` wrote ["@ + written
                + "] on entity "@ + id + ", which matches no declared shape; nearest is `"@
                + schema[shape as int].name@ + "`, which does not include: "@ + joined_text(
                texts_view(extra@),
                ", "@,
            ),
            ShapeError::NoShapes => "system `"@ + writer + "` wrote ["@ + written + "] on entity "@
                + id + " but the registered schema declares no shapes"@,
        }
    }

    /// The position in the schema of the shape that comes nearest.
    pub fn shape(&self) -> (shape: Option<usize>)
        ensures
            shape == match self {
                ShapeError::Incomplete { shape, .. } => Some(*shape),
                ShapeError::Unmatched { shape, .. } => Some(*shape),
                ShapeError::NoShapes => None,
            },
    {
        match self {
            ShapeError::Incomplete { shape, .. } => Some(*shape),
            ShapeError::Unmatched { shape, .. } => Some(*shape),
            ShapeError::NoShapes => None,
        }
    }

    /// The error in words; `writer` is the name of the system that wrote.
    pub fn message<C: RelationshipTarget>(
        &self,
        schema: &Vec<ShapeDesc>,
        entity: Entity,
        kinds: &Vec<ComponentId>,
        writer: &str,
    ) -> (text: String)
        requires
            match self {
                ShapeError::Incomplete { shape, .. } => *shape < schema@.len(),
                ShapeError::Unmatched { shape, .. } => *shape < schema@.len(),
                ShapeError::NoShapes => true,
            },
        ensures
            text@ == self.wording::<C>(schema@, entity, kinds@, writer@),
    {
        let id = decimal_text(entity.raw());
        let written = join_texts(&names_of::<C>(kinds), ", ");
        let mut text = String::from_str("system `");
        text.append(writer);
        match self {
            ShapeError::Incomplete { shape, missing } => {
                text.append("` wrote entity ");
                text.append(id.as_str());
                text.append(" as shape `");
                text.append(schema[*shape].name);
                text.append("` but left required component(s) missing: ");
                let names = join_texts(missing, ", ");
                text.append(names.as_str());
            },
            ShapeError::Unmatched { shape, extra } => {
                text.append("` wrote [");
                text.append(written.as_str());
                text.append("] on entity ");
                text.append(id.as_str());
                text.append(", which matches no declared shape; nearest is `");
                text.append(schema[*shape].name);
                text.append("`, which does not include: ");
                let names = join_texts(extra, ", ");
                text.append(names.as_str());
            },
            ShapeError::NoShapes => {
                text.append("` wrote [");
                text.append(written.as_str());
                text.append("] on entity ");
                text.append(id.as_str());
                text.append(" but the registered schema declares no shapes");
            },
        }
        text
    }
}

/// Whether `shape` can hold every one of `kinds`.
pub open spec fn holds_all(shape: ShapeDesc, kinds: Seq<ComponentId>) -> bool {
    forall|i: int| 0 <= i < kinds.len() ==> shape.holds(#[trigger] kinds[i])
}

/// Whether `shape` can hold one of `kinds`.
pub open spec fn holds_any(shape: ShapeDesc, kinds: Seq<ComponentId>) -> bool {
    exists|i: int| 0 <= i < kinds.len() && shape.holds(#[trigger] kinds[i])
}

/// Whether two lists share an element.
pub open spec fn overlap(a: Seq<ComponentId>, b: Seq<ComponentId>) -> bool {
    exists|i: int| 0 <= i < a.len() && b.contains(#[trigger] a[i])
}

/// Whether a system that declares `declared` could complete an entity that a
/// view over `required` matches: it writes one of the view's components, and some
/// shape can carry all of them next to something declared.
pub open spec fn can_complete(
    schema: Seq<ShapeDesc>,
    declared: Seq<ComponentId>,
    required: Seq<ComponentId>,
) -> bool {
    &&& required.len() > 0
    &&& overlap(required, declared)
    &&& exists|i: int|
        0 <= i < schema.len() && holds_all(#[trigger] schema[i], required) && holds_any(
            schema[i],
            declared,
        )
}

/// Whether a producer's declared outputs could race one of a viewer's views in
/// the same phase. A wildcard producer is not judged.
pub open spec fn same_phase_conflict(
    schema: Seq<ShapeDesc>,
    producer: SystemModel,
    viewer: SystemModel,
) -> bool {
    match producer.outputs {
        Some(declared) => exists|i: int|
            0 <= i < viewer.views.len() && can_complete(
                schema,
                declared,
                #[trigger] viewer.views[i],
            ),
        None => false,
    }
}

fn shape_holds_all(shape: &ShapeDesc, kinds: &Vec<ComponentId>) -> (all: bool)
    ensures
        all == holds_all(*shape, kinds@),
{
    let mut i: usize = 0;
    while i < kinds.len()
        invariant
            i <= kinds@.len(),
            forall|j: int| 0 <= j < i ==> shape.holds(#[trigger] kinds@[j]),
        decreases kinds@.len() - i,
    {
        if !shape.contains(kinds[i]) {
            assert(!shape.holds(kinds@[i as int]));
            return false;
        }
        i = i + 1;
    }
    true
}

fn shape_holds_any(shape: &ShapeDesc, kinds: &Vec<ComponentId>) -> (any: bool)
    ensures
        any == holds_any(*shape, kinds@),
{
    let mut i: usize = 0;
    while i < kinds.len()
        invariant
            i <= kinds@.len(),
            forall|j: int| 0 <= j < i ==> !shape.holds(#[trigger] kinds@[j]),
        decreases kinds@.len() - i,
    {
        if shape.contains(kinds[i]) {
            assert(shape.holds(kinds@[i as int]));
            return true;
        }
        i = i + 1;
    }
    false
}

fn lists_overlap(a: &Vec<ComponentId>, b: &Vec<ComponentId>) -> (shared: bool)
    ensures
        shared == overlap(a@, b@),
{
    let mut i: usize = 0;
    while i < a.len()
        invariant
            i <= a@.len(),
            forall|j: int| 0 <= j < i ==> !b@.contains(#[trigger] a@[j]),
        decreases a@.len() - i,
    {
        if lists(b, a[i]) {
            assert(b@.contains(a@[i as int]));
            return true;
        }
        i = i + 1;
    }
    false
}

fn view_completable(
    schema: &Vec<ShapeDesc>,
    declared: &Vec<ComponentId>,
    required: &Vec<ComponentId>,
) -> (completable: bool)
    ensures
        completable == can_complete(schema@, declared@, required@),
{
    if required.len() == 0 || !lists_overlap(required, declared) {
        return false;
    }
    let mut i: usize = 0;
    while i < schema.len()
        invariant
            i <= schema@.len(),
            required@.len() > 0,
            overlap(required@, declared@),
            forall|j: int|
                0 <= j < i ==> !(holds_all(#[trigger] schema@[j], required@) && holds_any(
                    schema@[j],
                    declared@,
                )),
        decreases schema@.len() - i,
    {
        if shape_holds_all(&schema[i], required) && shape_holds_any(&schema[i], declared) {
            assert(holds_all(schema@[i as int], required@));
            return true;
        }
        i = i + 1;
    }
    false
}

/// Registration-time analysis of one producer and one viewer of the same phase:
/// whether the producer could complete an entity that the viewer reads
/// ambiently.
pub fn producer_viewer_conflict(
    schema: &Vec<ShapeDesc>,
    producer: &BoxedSystem,
    viewer: &BoxedSystem,
) -> (conflict: bool)
    ensures
        conflict == same_phase_conflict(schema@, producer@, viewer@),
{
    let declared = match &producer.declared_outputs {
        Some(declared) => declared,
        None => {
            return false;
        },
    };
    let mut i: usize = 0;
    while i < viewer.view_sets.len()
        invariant
            i <= viewer.view_sets@.len(),
            producer@.outputs == Some(declared@),
            forall|j: int|
                0 <= j < i ==> !can_complete(schema@, declared@, #[trigger] viewer@.views[j]),
        decreases viewer.view_sets@.len() - i,
    {
        assert(viewer@.views[i as int] == viewer.view_sets@[i as int]@);
        if view_completable(schema, declared, &viewer.view_sets[i]) {
            return true;
        }
        i = i + 1;
    }
    false
}

/// Whether a write of `kind` leaves `entity` with everything that a view
/// over `required` asks for.
pub open spec fn completes_view<C: RelationshipTarget>(
    world: WorldModel<C>,
    required: Seq<ComponentId>,
    kind: ComponentId,
    entity: Entity,
) -> bool {
    &&& required.contains(kind)
    &&& forall|i: int| 0 <= i < required.len() ==> world.has(#[trigger] required[i], entity)
}

/// Whether a write of `kind` on `entity` lands in one of the views `views`.
pub open spec fn lands_in_view<C: RelationshipTarget>(
    world: WorldModel<C>,
    views: Seq<Seq<ComponentId>>,
    kind: ComponentId,
    entity: Entity,
) -> bool {
    exists|i: int|
        0 <= i < views.len() && completes_view(world, #[trigger] views[i], kind, entity)
}

fn carries_all<C: RelationshipTarget>(world: &World<C>, kinds: &Vec<ComponentId>, entity: Entity) -> (all:
    bool)
    ensures
        all == forall|i: int| 0 <= i < kinds@.len() ==> world@.has(#[trigger] kinds@[i], entity),
{
    let mut i: usize = 0;
    while i < kinds.len()
        invariant
            i <= kinds@.len(),
            forall|j: int| 0 <= j < i ==> world@.has(#[trigger] kinds@[j], entity),
        decreases kinds@.len() - i,
    {
        if !world.has(kinds[i], entity) {
            assert(!world@.has(kinds@[i as int], entity));
            return false;
        }
        i = i + 1;
    }
    true
}

/// Whether a write of `cell` lands in a view of the system.
pub fn write_lands_in_view<C: RelationshipTarget>(
    world: &World<C>,
    system: &BoxedSystem,
    cell: Cell,
) -> (lands: bool)
    ensures
        lands == lands_in_view(world@, system@.views, cell.0, cell.1),
{
    let mut i: usize = 0;
    while i < system.view_sets.len()
        invariant
            i <= system.view_sets@.len(),
            forall|j: int|
                0 <= j < i ==> !completes_view(
                    world@,
                    #[trigger] system@.views[j],
                    cell.0,
                    cell.1,
                ),
        decreases system.view_sets@.len() - i,
    {
        let ghost required = system@.views[i as int];
        assert(required == system.view_sets@[i as int]@);
        if lists(&system.view_sets[i], cell.0) && carries_all(world, &system.view_sets[i], cell.1) {
            assert(completes_view(world@, system@.views[i as int], cell.0, cell.1));
            return true;
        }
        i = i + 1;
    }
    false
}

} // verus!
