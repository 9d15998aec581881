use bowl::binding::validate_bindings;
use bowl::commands::{bundle_singleton_key, insert_bundle, ApplyError, CommandOp};
use bowl::component::{Component, ComponentId, ComponentType};
use bowl::conformance::{check_shape_conformance, ShapeError};
use bowl::declare::{ShapeDesc, ShapePartDesc};
use bowl::entity::Entity;
use bowl::evaluation::{BudgetError, CommitBudget, CommitLimit};
use bowl::facts::{Count, Fact, Link, Linked, Text, Unique};
use bowl::invocation::{SystemId, SystemInvocation};
use bowl::memo::{plan_invocations, MemoTable};
use bowl::param::{BindingError, JoinError, Param};
use bowl::query::{PartMode, QueryPart, RowFilter, RowQuery};
use bowl::world::World;

type A = Count<0>;
type B = Count<1>;
type C = Count<2>;
type Key = Text<0>;
type Members = Linked<0>;

fn kind<T: ComponentType<Universe = Fact>>() -> ComponentId {
    T::component_type()
}

fn part(component: ComponentId) -> QueryPart {
    QueryPart { component, mode: PartMode::Read }
}

fn query(parts: &[ComponentId], filters: Vec<RowFilter>) -> RowQuery {
    RowQuery::new(parts.iter().map(|component| part(*component)).collect(), filters)
}

fn shape_part(component: ComponentId) -> ShapePartDesc {
    ShapePartDesc { component, name: Fact::component_name(component) }
}

fn shape(name: &'static str, required: &[ComponentId], optional: &[ComponentId]) -> ShapeDesc {
    ShapeDesc {
        name,
        required: required.iter().map(|component| shape_part(*component)).collect(),
        optional: optional.iter().map(|component| shape_part(*component)).collect(),
    }
}

#[test]
fn a_budget_counts_up_to_its_limit() {
    let mut budget = CommitBudget::new(CommitLimit::Max(3));
    assert_eq!(budget.record(2), Ok(()));
    assert_eq!(budget.record(0), Ok(()));
    assert_eq!(budget.record(1), Ok(()));
    let error = budget.record(1).unwrap_err();
    assert_eq!(error, BudgetError::Exceeded { accepted: 4, limit: 3 });
    assert_eq!(
        error.message(),
        "bowl commit limit exceeded: accepted 4 non-cleanup commits while trying to settle; \
         current limit is 3"
    );
    assert_eq!(budget.record(u64::MAX), Err(BudgetError::Overflow));
    assert_eq!(BudgetError::Overflow.message(), "commit budget counter overflowed");
    assert_eq!(CommitBudget::new(CommitLimit::Unlimited).record(u64::MAX), Ok(()));
}

#[test]
fn bindings_are_checked_at_registration() {
    let outer = vec![Param::Outer(query(&[kind::<A>()], vec![]))];
    assert_eq!(validate_bindings(&outer), Err(BindingError::OuterUnbound));

    let bound = || query(&[kind::<B>()], vec![RowFilter::Bound(kind::<Key>())]);
    let provider = || Param::Query(query(&[kind::<A>(), kind::<Key>()], vec![]));
    let view = vec![provider(), Param::View(bound())];
    assert_eq!(validate_bindings(&view), Err(BindingError::ViewBound(kind::<Key>())));

    let none = vec![Param::Query(bound())];
    let error = validate_bindings(&none).unwrap_err();
    assert_eq!(error, BindingError::Providers { key: kind::<Key>(), found: 0 });
    assert_eq!(
        error.message("Key"),
        "bound `Where<Eq<Key>>` needs exactly one sibling query param reading `&Key`; found 0"
    );
    let two = vec![provider(), provider(), Param::Query(bound())];
    assert_eq!(
        validate_bindings(&two),
        Err(BindingError::Providers { key: kind::<Key>(), found: 2 })
    );
    assert_eq!(validate_bindings(&vec![provider(), Param::Query(bound())]), Ok(()));
}

fn joined(world: &World<Fact>, params: Vec<Param>) -> Option<JoinError> {
    plan_invocations(SystemId(0), world, &params, &MemoTable::new()).err()
}

#[test]
fn joins_need_fingerprints_and_a_provider_in_front() {
    let mut world: World<Fact> = World::new();
    let left = world.spawn_empty();
    let right = world.spawn_empty();
    for entity in [left, right] {
        assert!(world.insert_base(entity, Count::<2>(1).erase()).is_ok());
        assert!(world.insert_base(entity, Text::<0>(b"k".to_vec()).erase()).is_ok());
    }
    assert!(world.insert_base(left, Count::<0>(1).erase()).is_ok());
    assert!(world.insert_base(right, Count::<1>(1).erase()).is_ok());

    let provider = |key| Param::Query(query(&[kind::<A>(), key], vec![]));
    let bound = |key| Param::Query(query(&[kind::<B>()], vec![RowFilter::Bound(key)]));
    assert_eq!(joined(&world, vec![provider(kind::<Key>()), bound(kind::<Key>())]), None);
    assert_eq!(
        joined(&world, vec![bound(kind::<Key>()), provider(kind::<Key>())]),
        Some(JoinError::ProviderMustPrecede)
    );
    let unhashed = joined(&world, vec![provider(kind::<C>()), bound(kind::<C>())]).unwrap();
    assert!(unhashed.message().contains("`#[component(hash)]`"));
}

#[test]
fn a_membership_join_reads_an_inverse() {
    let mut world: World<Fact> = World::new();
    let parent = world.spawn_empty();
    let child = world.spawn_empty();
    assert!(world.insert_base(parent, Count::<0>(1).erase()).is_ok());
    assert!(world.insert_base(child, Count::<1>(1).erase()).is_ok());
    assert!(world.insert_base(child, Link::<0>(parent).erase()).is_ok());
    let provider = |key| Param::Query(query(&[kind::<A>(), key], vec![]));
    let member = |key| Param::Query(query(&[kind::<B>()], vec![RowFilter::Member(key)]));
    assert_eq!(joined(&world, vec![provider(kind::<Members>()), member(kind::<Members>())]), None);
    assert_eq!(
        joined(&world, vec![provider(kind::<A>()), member(kind::<A>())]),
        Some(JoinError::ProviderMustPrecede),
        "pairs are read off the provider, and it lists none"
    );

    for entity in [parent, child] {
        assert!(world.insert_base(entity, Text::<0>(b"k".to_vec()).erase()).is_ok());
    }
    let filters = vec![RowFilter::Bound(kind::<Key>()), RowFilter::Member(kind::<A>())];
    let both = Param::Query(query(&[kind::<B>()], filters));
    let error = joined(&world, vec![provider(kind::<Key>()), both]).unwrap();
    assert_eq!(error, JoinError::ProviderNotInverse);
    assert!(error.message().starts_with("`Where<In<..>>` provider must read a maintained"));
}

#[test]
fn a_write_completes_a_shape_or_is_explained() {
    let mut world: World<Fact> = World::new();
    let entity = world.spawn_empty();
    let schema = vec![
        shape("Pair", &[kind::<A>(), kind::<Key>()], &[]),
        shape("Single", &[kind::<B>()], &[kind::<C>()]),
    ];
    assert!(world.insert_base(entity, Count::<0>(1).erase()).is_ok());
    let kinds = vec![kind::<A>()];
    let error = check_shape_conformance(&world, &schema, entity, &kinds).unwrap_err();
    assert!(matches!(&error, ShapeError::Incomplete { shape: 0, missing } if missing == &vec!["Text"]));
    assert_eq!(
        error.message::<Fact>(&schema, entity, &kinds, "writer"),
        "system `writer` wrote entity 0 as shape `Pair` but left required component(s) missing: Text"
    );

    let both = vec![kind::<A>(), kind::<B>()];
    let error = check_shape_conformance(&world, &schema, entity, &both).unwrap_err();
    assert!(matches!(&error, ShapeError::Unmatched { shape: 0, extra } if extra == &vec!["Count"]));
    assert_eq!(
        error.message::<Fact>(&schema, entity, &both, "writer"),
        "system `writer` wrote [Count, Count] on entity 0, which matches no declared shape; \
         nearest is `Pair`, which does not include: Count"
    );

    let error = check_shape_conformance(&world, &Vec::new(), entity, &kinds).unwrap_err();
    assert!(matches!(error, ShapeError::NoShapes));
    assert_eq!(
        error.message::<Fact>(&Vec::new(), entity, &kinds, "writer"),
        "system `writer` wrote [Count] on entity 0 but the registered schema declares no shapes"
    );

    assert!(world.insert_base(entity, Text::<0>(b"k".to_vec()).erase()).is_ok());
    assert!(check_shape_conformance(&world, &schema, entity, &kinds).is_ok());
}

#[test]
fn a_bundle_has_at_most_one_singleton() {
    let mut world: World<Fact> = World::new();
    let one = world.spawn_empty();
    let two = world.spawn_empty();
    let owner = SystemInvocation::new(SystemId(0), vec![one]);
    let pair = vec![Unique::<0>(1).erase(), Unique::<1>(1).erase()];
    assert!(matches!(bundle_singleton_key(&pair), Err(ApplyError::SeveralSingletons)));
    let single = vec![Count::<0>(1).erase(), Unique::<1>(1).erase()];
    assert!(matches!(bundle_singleton_key(&single), Ok(Some(key)) if key == kind::<Unique<1>>()));
    assert!(matches!(bundle_singleton_key(&vec![Count::<0>(1).erase()]), Ok(None)));

    assert!(insert_bundle(&mut world, one, single, &owner).is_ok());
    let again = vec![Unique::<1>(2).erase(), Count::<1>(2).erase()];
    match insert_bundle(&mut world, two, again, &owner) {
        Err(ApplyError::Conflict(conflict)) => {
            assert_eq!(conflict.component, kind::<Unique<1>>());
            assert_eq!(conflict.existing.raw(), one.raw());
        }
        _ => panic!("the singleton is on another entity"),
    }
    assert!(!world.has(kind::<B>(), two), "nothing behind a refused value is written");
}

#[test]
fn a_spawned_singleton_lands_on_the_entity_that_holds_it() {
    let mut world: World<Fact> = World::new();
    let holder = world.spawn_empty();
    let reserved = Entity::from_raw(40);
    let owner = SystemInvocation::new(SystemId(0), Vec::new());
    assert!(world.insert_base(holder, Unique::<0>(1).erase()).is_ok());
    let op = CommandOp::Spawn {
        bundle: vec![Unique::<0>(2).erase(), Count::<0>(3).erase()],
        reserved,
    };
    assert!(op.apply(&mut world, &owner).is_ok());
    assert!(world.has(kind::<A>(), holder));
    assert!(!world.has(kind::<A>(), reserved));

    let op = CommandOp::Spawn { bundle: vec![Count::<0>(4).erase()], reserved };
    assert!(op.apply(&mut world, &owner).is_ok());
    assert!(world.has(kind::<A>(), reserved));
    let op: CommandOp<Fact> = CommandOp::RemoveComponent { kind: kind::<A>(), entity: holder };
    assert!(op.apply(&mut world, &owner).is_ok());
    assert!(!world.has(kind::<A>(), holder));
    let op: CommandOp<Fact> = CommandOp::RemoveEntity { entity: reserved };
    assert!(op.apply(&mut world, &owner).is_ok());
    assert!(!world.has(kind::<A>(), reserved));
}
