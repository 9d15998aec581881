use bowl::access::{access_lists_conflict, written_rows, Access};
use bowl::component::{hash_component, Component, ComponentType, DerivedFrom};
use bowl::entity::Entity;
use bowl::facts::{component_of, Count, Fact, Link, Linked, Note, Text, Unique, COUNT, TEXT};
use bowl::filter::{external_filtered_rows, ArgBundle, QueryArgs};
use bowl::invocation::{SystemId, SystemInvocation};
use bowl::model::Origin;
use bowl::presence::PresenceIndex;
use bowl::projection::carriers_of;
use bowl::query::{And, Dep, Gte, MutRef, Not, Or, PartMode, QueryPart, RowFilter, RowQuery, With, Without};
use bowl::text::{decimal_text, join_texts};
use bowl::world::World;

type A = Count<0>;
type B = Count<1>;
type Key = Text<0>;

fn world() -> World<Fact> {
    World::new()
}

fn kind<T: ComponentType<Universe = Fact>>() -> u64 {
    T::component_type()
}

fn owner(system: usize, keys: &[Entity]) -> SystemInvocation {
    SystemInvocation::new(SystemId(system), keys.to_vec())
}

fn put<T: ComponentType<Universe = Fact>>(world: &mut World<Fact>, entity: Entity, value: T) {
    assert!(world.insert_base(entity, value.erase()).is_ok());
}

fn derive<T: ComponentType<Universe = Fact>>(
    world: &mut World<Fact>,
    entity: Entity,
    value: T,
    by: &SystemInvocation,
) {
    assert!(world.insert_derived(entity, value.erase(), by).is_ok());
}

fn number(world: &World<Fact>, kind: u64, entity: Entity) -> Option<u64> {
    match world.get(kind, entity) {
        Some(Fact::Count { value, .. }) => Some(*value),
        _ => None,
    }
}

fn ids(entities: Vec<Entity>) -> Vec<u64> {
    entities.into_iter().map(|entity| entity.raw()).collect()
}

#[test]
fn what_was_inserted_is_read_back() {
    let mut world = world();
    let one = world.spawn_empty();
    let two = world.spawn_empty();
    put(&mut world, two, Count::<0>(5));
    put(&mut world, one, Count::<0>(7));
    assert_eq!(number(&world, kind::<A>(), one), Some(7));
    assert_eq!(number(&world, kind::<A>(), two), Some(5));
    assert_eq!(number(&world, kind::<B>(), one), None);
    assert_eq!(ids(world.entities_with(kind::<A>())), vec![one.raw(), two.raw()]);
    let entry = world.entry(kind::<A>(), one).unwrap();
    assert_eq!(entry.origin, Origin::Base);
}

#[test]
fn a_changed_write_gets_the_newest_revision() {
    let mut world = world();
    let entity = world.spawn_empty();
    put(&mut world, entity, Count::<0>(1));
    put(&mut world, entity, Text::<0>(b"k".to_vec()));
    let newest = world.revision_raw();
    assert_eq!(world.revision(kind::<Key>(), entity), Some(newest));
    put(&mut world, entity, Count::<0>(1));
    assert_eq!(world.revision_raw(), newest + 1);
    assert_eq!(world.revision(kind::<A>(), entity), Some(newest + 1));
    assert_eq!(world.store_watermark(kind::<A>()), newest + 1);
    assert_eq!(world.entity_revision(entity), Some(newest + 1));
}

#[test]
fn an_equal_fingerprint_is_no_change() {
    let mut world = world();
    let entity = world.spawn_empty();
    put(&mut world, entity, Text::<0>(b"same".to_vec()));
    let (revision, mutations) = (world.revision_raw(), world.mutations_raw());
    put(&mut world, entity, Text::<0>(b"same".to_vec()));
    assert_eq!((world.revision_raw(), world.mutations_raw()), (revision, mutations));
    let again = Text::<0>(b"same".to_vec()).erase();
    assert_eq!(world.update_component_live(entity, again), Some(false));
    let other = Text::<0>(b"other".to_vec()).erase();
    assert_eq!(world.update_component_live(entity, other), Some(true));
    assert_eq!(world.revision_raw(), revision + 1);
    assert_eq!(
        world.fingerprint(kind::<Key>(), entity),
        Some(hash_component(b"other"))
    );
    assert_eq!(
        ids(world.fingerprint_candidates(kind::<Key>(), hash_component(b"other"))),
        vec![entity.raw()]
    );
    assert!(world.fingerprint_candidates(kind::<Key>(), hash_component(b"same")).is_empty());
}

#[test]
fn an_untracked_write_moves_no_revision() {
    let mut world = world();
    let entity = world.spawn_empty();
    put(&mut world, entity, Count::<0>(1));
    let (revision, mutations) = (world.revision_raw(), world.mutations_raw());
    put(&mut world, entity, Note::<0>(1));
    assert_eq!(world.revision_raw(), revision);
    assert!(world.mutations_raw() > mutations);
    assert_eq!(world.entity_revision(entity), Some(revision));
}

#[test]
fn a_singleton_stays_on_its_entity() {
    let mut world = world();
    let first = world.singleton_entity_or_spawn(kind::<Unique<0>>());
    put(&mut world, first, Unique::<0>(1));
    let again = world.singleton_entity_or_spawn(kind::<Unique<0>>());
    assert_eq!(first.raw(), again.raw());
    let other = world.spawn_empty();
    let refused = world.insert_base(other, Unique::<0>(2).erase());
    assert_eq!(refused.err().map(|conflict| conflict.existing.raw()), Some(first.raw()));
    assert!(!world.has(kind::<Unique<0>>(), other));
    world.remove_entity(first);
    assert!(world.singleton_entity(kind::<Unique<0>>()).is_none());
    assert!(world.insert_base(other, Unique::<0>(2).erase()).is_ok());
}

#[test]
fn an_edge_is_listed_on_its_target() {
    let mut world = world();
    let (parent, other) = (world.spawn_empty(), world.spawn_empty());
    let (late, early) = (Entity::from_raw(9), Entity::from_raw(4));
    put(&mut world, late, Link::<0>(parent));
    put(&mut world, early, Link::<0>(parent));
    let inverse = kind::<Linked<0>>();
    assert_eq!(ids(world.members(inverse, parent)), vec![4, 9]);

    let revision = world.revision_raw();
    put(&mut world, early, Link::<0>(parent));
    assert_eq!(world.revision_raw(), revision);

    put(&mut world, early, Link::<0>(other));
    assert_eq!(ids(world.members(inverse, parent)), vec![9]);
    assert_eq!(ids(world.members(inverse, other)), vec![4]);

    world.remove_component(kind::<Link<0>>(), late);
    assert!(!world.has(inverse, parent), "an inverse without members is gone");

    world.remove_entity(other);
    assert!(!world.has(kind::<Link<0>>(), early), "the edge to a removed target is gone");
}

#[test]
fn a_removed_entity_carries_nothing() {
    let mut world = world();
    let entity = world.spawn_empty();
    put(&mut world, entity, Count::<0>(1));
    derive(&mut world, entity, Count::<1>(2), &owner(0, &[entity]));
    let owners = world.remove_entity(entity);
    assert_eq!(owners.len(), 1);
    assert!(!world.has(kind::<A>(), entity) && !world.has(kind::<B>(), entity));
    assert_eq!(world.entity_revision(entity), None);
    assert_eq!(ids(world.take_removed_entities()), vec![entity.raw()]);
}

#[test]
fn a_rerun_replaces_its_outputs_as_a_unit() {
    let mut world = world();
    let (one, two) = (world.spawn_empty(), world.spawn_empty());
    let by = owner(0, &[one]);
    derive(&mut world, one, Text::<0>(b"x".to_vec()), &by);
    derive(&mut world, two, Count::<1>(1), &by);
    assert!(world.has_derived_owned(&by));
    let revision = world.revision(kind::<Key>(), one);

    let previous = world.take_derived_outputs(&by);
    derive(&mut world, one, Text::<0>(b"x".to_vec()), &by);
    world.remove_derived_stale(&by, &previous);
    assert_eq!(world.revision(kind::<Key>(), one), revision, "an equal output is kept");
    assert!(!world.has(kind::<B>(), two), "an output that was not emitted again is gone");

    world.remove_derived_owned(&by);
    assert!(!world.has(kind::<Key>(), one));
    assert!(!world.has_derived_owned(&by));
}

#[test]
fn outputs_of_touched_invocations_are_given_up() {
    let mut world = world();
    let (one, two) = (world.spawn_empty(), world.spawn_empty());
    derive(&mut world, two, Count::<0>(1), &owner(0, &[one]));
    derive(&mut world, two, Count::<1>(1), &owner(1, &[two]));
    world.remove_derived_touched_by(&vec![one]);
    assert!(!world.has(kind::<A>(), two));
    assert!(world.has(kind::<B>(), two));
}

#[test]
fn spawn_slots_are_reused_in_order() {
    let mut world = world();
    let by = owner(0, &[]);
    let (one, two) = (world.spawn_empty(), world.spawn_empty());
    world.record_derived_spawn(&by, one);
    world.record_derived_spawn(&by, two);
    world.finish_derived_spawns(&by);
    assert_eq!(ids(world.spawn_slots(&by)), vec![one.raw(), two.raw()]);
    world.record_derived_spawn(&by, one);
    world.finish_derived_spawns(&by);
    assert_eq!(ids(world.spawn_slots(&by)), vec![one.raw()]);
}

#[test]
fn a_derived_fact_is_current_until_its_source_changes() {
    let mut world = world();
    let (source, fact) = (world.spawn_empty(), world.spawn_empty());
    put(&mut world, source, Count::<0>(1));
    let by = owner(0, &[source]);
    assert!(world.insert_derived(fact, Fact::Derived(DerivedFrom::new(source)), &by).is_ok());
    put(&mut world, source, Count::<1>(1));
    world.flush_derived_from();
    let marker = match world.get(0, fact).and_then(|value| value.derived_from()) {
        Some(marker) => marker,
        None => panic!("the marker is resolved"),
    };
    assert!(world.is_current(&marker), "anchors are captured when the buffer ends");
    put(&mut world, source, Note::<0>(1));
    assert!(world.is_current(&marker), "an untracked write is no change of the source");
    put(&mut world, source, Count::<0>(2));
    assert!(!world.is_current(&marker));
    assert_eq!(ids(marker.entities()), vec![source.raw()]);
}

#[test]
fn a_snapshot_keeps_what_it_saw() {
    let mut world = world();
    let entity = world.spawn_empty();
    put(&mut world, entity, Count::<0>(1));
    let snapshot = world.snapshot();
    put(&mut world, entity, Count::<0>(2));
    assert_eq!(number(&snapshot, kind::<A>(), entity), Some(1));
    assert_eq!(number(&world, kind::<A>(), entity), Some(2));
}

#[test]
fn the_write_log_lists_what_changed() {
    let mut world = world();
    let entity = world.spawn_empty();
    put(&mut world, entity, Count::<0>(1));
    world.remove_component(kind::<A>(), entity);
    let (log, epoch) = world.plan_log();
    let cells: Vec<(u64, u64)> = log.iter().map(|cell| (cell.0, cell.1.raw())).collect();
    assert_eq!(cells, vec![(kind::<A>(), entity.raw()), (kind::<A>(), entity.raw())]);
    assert_eq!(epoch, 0);
}

#[test]
fn in_place_writes_are_reconciled() {
    let mut world = world();
    let entity = world.spawn_empty();
    put(&mut world, entity, Text::<0>(b"a".to_vec()));
    let revision = world.revision_raw();
    world.reconcile_written(vec![(entity, Text::<0>(b"a".to_vec()).erase())]);
    assert_eq!(world.revision_raw(), revision);
    let mut dep = Dep {
        component: kind::<Key>(),
        entity: Some(entity),
        revision: world.revision(kind::<Key>(), entity).unwrap(),
        absent: false,
    };
    world.reconcile_written(vec![(entity, Text::<0>(b"b".to_vec()).erase())]);
    assert_eq!(world.revision_raw(), revision + 1);
    assert!(!dep.is_current(&world));
    dep.refresh_written(&world, &vec![(kind::<Key>(), entity)]);
    assert!(dep.is_current(&world));
}

#[test]
fn absence_is_an_input_too() {
    let mut world = world();
    let entity = world.spawn_empty();
    put(&mut world, entity, Count::<0>(1));
    let query = RowQuery::new(
        vec![QueryPart { component: kind::<A>(), mode: PartMode::Read }],
        vec![RowFilter::Maybe(kind::<B>()), RowFilter::Anchor(kind::<A>())],
    );
    let deps = query.deps(&world, entity);
    assert_eq!(deps.len(), 2);
    assert!(!deps[0].absent && deps[1].absent);
    assert!(deps.iter().all(|dep| dep.is_current(&world)));
    put(&mut world, entity, Count::<1>(1));
    assert!(deps[0].is_current(&world));
    assert!(!deps[1].is_current(&world));
}

#[test]
fn conflicts_are_symmetric_and_per_row() {
    let (one, two) = (Entity::from_raw(1), Entity::from_raw(2));
    let read = Access::read(kind::<A>(), one);
    let write = Access::write(kind::<A>(), one);
    assert!(!read.conflicts(read));
    assert!(read.conflicts(write) && write.conflicts(read));
    assert!(!write.conflicts(Access::write(kind::<A>(), two)));
    assert!(!write.conflicts(Access::write(kind::<B>(), one)));
    assert!(Access::write_all(kind::<A>()).conflicts(read));
    assert!(!Access::read_all(kind::<A>()).conflicts(read));
    assert!(access_lists_conflict(&vec![read], &vec![Access::read(kind::<B>(), one), write]));
    let rows: Vec<(u64, u64)> =
        written_rows(&vec![read, write]).into_iter().map(|cell| (cell.0, cell.1.raw())).collect();
    assert_eq!(rows, vec![(kind::<A>(), 1)]);
}

#[test]
fn a_presence_mask_is_a_conjunction() {
    let (one, two) = (Entity::from_raw(1), Entity::from_raw(70));
    let mut index = PresenceIndex::new(&vec![3, 5, 8]);
    index.set(3, one, true);
    index.set(5, one, true);
    index.set(3, two, true);
    let both = index.mask(&vec![3, 5]).unwrap();
    assert!(index.matches(one, &both) && !index.matches(two, &both));
    let first = index.mask(&vec![3]).unwrap();
    assert_eq!(ids(index.entities_matching(&first)), vec![1, 70]);
    assert!(index.mask(&vec![4]).is_none(), "a component outside the universe has no bit");
    index.clear_entity(one);
    assert_eq!(ids(index.entities_matching(&first)), vec![70]);
    index.set(3, two, false);
    assert!(index.entities_matching(&first).is_empty());
}

fn found<F: bowl::filter::FilterExpr<Fact>>(
    world: &World<Fact>,
    args: &QueryArgs<Fact>,
) -> Result<Vec<u64>, u64> {
    external_filtered_rows::<Fact, F>(world, &carriers_of(kind::<A>()), args, None).map(ids)
}

#[test]
fn filters_divide_the_rows() {
    let mut world = world();
    for value in 1..4u64 {
        let entity = world.spawn_empty();
        put(&mut world, entity, Count::<0>(value));
        if value == 2 {
            put(&mut world, entity, Text::<0>(b"two".to_vec()));
        }
    }
    let mut args: QueryArgs<Fact> = QueryArgs::new();
    assert_eq!(found::<Gte<A>>(&world, &args), Err(kind::<A>()));
    assert!((Count::<0>(2), Text::<0>(b"two".to_vec())).insert_into(&mut args, None));
    assert_eq!(found::<Gte<A>>(&world, &args), Ok(vec![1, 2]));
    assert_eq!(found::<Not<Gte<A>>>(&world, &args), Ok(vec![0]));
    assert_eq!(found::<bowl::query::Eq<Key>>(&world, &args), Ok(vec![1]));
    assert_eq!(found::<With<Key>>(&world, &args), Ok(vec![1]));
    assert_eq!(found::<Without<Key>>(&world, &args), Ok(vec![0, 2]));
    assert_eq!(found::<And<Gte<A>, Without<Key>>>(&world, &args), Ok(vec![2]));
    assert_eq!(found::<Or<With<Key>, Not<Gte<A>>>>(&world, &args), Ok(vec![0, 1]));
    assert_eq!(
        found::<Not<And<Gte<A>, With<Key>>>>(&world, &args),
        found::<Or<Not<Gte<A>>, Not<With<Key>>>>(&world, &args)
    );
}

#[test]
fn texts_are_written_out() {
    assert_eq!(decimal_text(0), "0");
    assert_eq!(decimal_text(u64::MAX), "18446744073709551615");
    assert_eq!(join_texts(&vec!["a", "b", "c"], ", "), "a, b, c");
    assert_eq!(join_texts(&Vec::new(), ", "), "");
}

#[test]
fn component_types_have_names_and_slots() {
    assert_eq!(Fact::component_name(component_of(COUNT, 7)), "Count");
    assert_eq!(Fact::component_name(component_of(TEXT, 7)), "Text");
    assert_ne!(component_of(COUNT, 7), component_of(COUNT, 8));
    assert!(Fact::is_tracked(component_of(COUNT, 7)));
    assert!(!Fact::is_tracked(kind::<Note<7>>()));
    assert!(!Fact::is_tracked(kind::<Unique<7>>()));
    assert_eq!(Fact::singleton_key(kind::<Unique<7>>()), Some(kind::<Unique<7>>()));
    assert_eq!(Count::<0>(1).erase().fingerprint(), None);
    assert_eq!(
        Text::<0>(b"x".to_vec()).erase().fingerprint(),
        Some(hash_component(b"x"))
    );
}

#[test]
fn an_edge_written_in_place_moves_to_its_new_target() {
    let mut world = world();
    let (parent, other) = (world.spawn_empty(), world.spawn_empty());
    let child = world.spawn_empty();
    put(&mut world, child, Link::<0>(parent));
    let inverse = kind::<Linked<0>>();

    assert_eq!(world.update_component_live(child, Link::<0>(other).erase()), Some(true));
    assert!(!world.has(inverse, parent), "nothing points here any more");
    assert_eq!(ids(world.members(inverse, other)), vec![child.raw()]);

    assert_eq!(world.update_component_live(child, Link::<0>(other).erase()), Some(false));
    assert_eq!(ids(world.members(inverse, other)), vec![child.raw()]);
}

#[test]
fn inverses_list_exactly_the_sources_whatever_is_done() {
    let mut world = world();
    let entities: Vec<Entity> = (0..6).map(|_| world.spawn_empty()).collect();
    let (edge, inverse) = (kind::<Link<0>>(), kind::<Linked<0>>());
    let mut seed: usize = 7;
    for step in 0..200 {
        seed = (seed * 31 + step) % 1009;
        let source = entities[seed % 6];
        let target = entities[(seed / 6) % 6];
        match seed % 5 {
            0 | 1 => put(&mut world, source, Link::<0>(target)),
            2 => {
                world.update_component_live(source, Link::<0>(target).erase());
            }
            3 => {
                world.remove_component(edge, source);
            }
            _ => {
                world.remove_entity(source);
            }
        }
        for target in &entities {
            let pointing: Vec<u64> = entities
                .iter()
                .filter(|source| match world.get(edge, **source) {
                    Some(Fact::Link { target: at, .. }) => at == target,
                    _ => false,
                })
                .map(|source| source.raw())
                .collect();
            assert_eq!(ids(world.members(inverse, *target)), pointing);
            assert_eq!(world.has(inverse, *target), !pointing.is_empty());
        }
    }
}

#[test]
fn a_row_access_writes_through() {
    let mut value = Count::<0>(1);
    let mut access = MutRef::new(Entity::from_raw(3), &mut value);
    assert_eq!(access.entity().raw(), 3);
    assert_eq!(access.get().0, 1);
    access.set(Count(5));
    assert_eq!(access.get().0, 5);
    assert_eq!(value.0, 5);
}

#[test]
fn finished_slots_are_those_recorded_since() {
    let mut world = world();
    let (mine, other) = (owner(0, &[]), owner(1, &[]));
    let entities: Vec<Entity> = (0..5).map(|_| world.spawn_empty()).collect();
    for at in [0, 1, 2] {
        world.record_derived_spawn(&mine, entities[at]);
    }
    world.record_derived_spawn(&other, entities[3]);
    world.finish_derived_spawns(&mine);
    assert_eq!(ids(world.spawn_slots(&mine)), vec![0, 1, 2]);
    assert_eq!(ids(world.spawn_slots(&other)), vec![3]);

    world.record_derived_spawn(&mine, entities[4]);
    world.record_derived_spawn(&mine, entities[1]);
    world.finish_derived_spawns(&mine);
    assert_eq!(ids(world.spawn_slots(&mine)), vec![4, 1]);

    world.finish_derived_spawns(&mine);
    assert!(world.spawn_slots(&mine).is_empty());
}
