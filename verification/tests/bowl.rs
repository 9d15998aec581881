use bowl::access::{Access, AccessKind};
use bowl::bowl::BoundEntity;
use bowl::bowl::read_from;
use bowl::bowl::{Bowl, QueryResult, ScoopError};
use bowl::commands::CommandOp;
use bowl::commands::{Bundle, Commands, EntityAllocator};
use bowl::commit::{race_message, CommitError};
use bowl::component::{ComponentId, ComponentType, DerivedFrom};
use bowl::config::{FunctionSystem, IntoSystem, SystemCallback, SystemExt};
use bowl::declare::Anything;
use bowl::declare::{Schema, ShapeDesc, ShapePartDesc};
use bowl::entity::Entity;
use bowl::evaluation::{BudgetError, CommitLimit};
use bowl::evaluation::PhasePlan;
use bowl::evaluation::{Admission, CommitBudget, DriverStep, PhaseDriver};
use bowl::facet::{facet_rows, tracked_facet_rows};
use bowl::facts::{Count, Fact, Link, Linked, Note, Text, Unique};
use bowl::filter::ArgBundle;
use bowl::filter::QueryArgs;
use bowl::invocation::SystemId;
use bowl::invocation::SystemInvocation;
use bowl::memo::MemoTable;
use bowl::model::Hook;
use bowl::param::{Param, RowState};
use bowl::projection::ExternalReadQueryParam;
use bowl::query::With;
use bowl::query::{And, Gte, Where};
use bowl::query::{PartMode, QueryPart, RowFilter, RowQuery};
use bowl::state::State;
use bowl::state::Ticket;
use bowl::state::builder::BowlBuilder;
use bowl::state::bodies::SystemBodies;
use bowl::state::engine::EngineError;
use bowl::state::hooks::{RowBodies, Served};
use bowl::state::generation::Evaluation;
use bowl::state::generation::MutationStep;
use bowl::state::inputs::{Inserted, PreemptWaiter};
use bowl::state::take::TakeBundle;
use bowl::system::{Phase, Wrapper};
use bowl::system::{SystemOutput, SystemRun};
use bowl::world::World;
use std::cell::{Cell, RefCell};
use std::collections::BTreeSet;
use std::rc::Rc;
use std::sync::Arc;

type A = Count<0>;
type B = Count<1>;
type C = Count<2>;
type D = Count<3>;
type Tally = Count<4>;
type Sum = Count<5>;
type Request = Count<6>;
type Answer = Count<7>;
type NonClone = Count<8>;
type Mark = Count<9>;
type MutableA = Count<10>;
type Label = Count<11>;
type Rank = Count<12>;
type Doomed = Count<13>;
type Stamp = Count<14>;
type ParentLink = Count<15>;
type Key = Text<0>;
type KeyB = Text<1>;
type Src = Text<2>;
type Def = Text<3>;
type Ask = Text<4>;
type Untracked = Note<0>;
type Ready = Note<1>;
type Passing = Note<2>;
type MemberOf = Link<0>;
type Members = Linked<0>;

const MAIN: u64 = 1;
const LIB: u64 = 2;

fn rank(value: u8) -> Key {
    Text(vec![value])
}

fn key_b(value: u8) -> KeyB {
    Text(vec![value])
}

/// What a system body sees of one invocation.
struct Step<'a> {
    rows: &'a [RowState],
    world: &'a World<Fact>,
    commands: &'a mut Commands<Fact, Anything>,
    allocator: &'a mut EntityAllocator,
    writes: Vec<(Entity, Fact)>,
}

impl Step<'_> {
    fn row(&self, index: usize) -> Entity {
        match self.rows[index] {
            RowState::Row(entity) => entity,
            _ => panic!("parameter {index} has no row"),
        }
    }

    fn partner(&self, index: usize) -> Option<Entity> {
        match self.rows[index] {
            RowState::Row(entity) => Some(entity),
            _ => None,
        }
    }

    fn num<T: ComponentType<Universe = Fact>>(&self, entity: Entity) -> u64 {
        number(self.world.get(T::component_type(), entity).expect("the row carries it"))
    }

    fn text<T: ComponentType<Universe = Fact>>(&self, entity: Entity) -> Vec<u8> {
        text(self.world.get(T::component_type(), entity).expect("the row carries it"))
    }

    fn has<T: ComponentType<Universe = Fact>>(&self, entity: Entity) -> bool {
        self.world.has(T::component_type(), entity)
    }

    fn all<T: ComponentType<Universe = Fact>>(&self) -> Vec<Entity> {
        self.world.entities_with(T::component_type())
    }

    fn put<T: ComponentType<Universe = Fact>>(&mut self, entity: Entity, value: T) {
        self.commands.insert_value(entity, value.erase());
    }

    fn spawn(&mut self, bundle: Vec<Fact>) -> Entity {
        self.commands.spawn(bundle, self.allocator)
    }

    fn remove(&mut self, entity: Entity) {
        self.commands.remove(entity);
    }

    fn write<T: ComponentType<Universe = Fact>>(&mut self, entity: Entity, value: T) {
        self.writes.push((entity, value.erase()));
    }
}

type Run = Box<dyn FnMut(&mut Step)>;

/// The bodies of the systems under test.
struct Bodies {
    runs: Vec<Run>,
}

impl RowBodies<Fact> for Bodies {
    fn run(
        &mut self,
        system: SystemId,
        rows: &Vec<RowState>,
        snapshot: &World<Fact>,
        commands: &mut Commands<Fact, Anything>,
        allocator: &mut EntityAllocator,
    ) -> Vec<(Entity, Fact)> {
        let mut step = Step { rows, world: snapshot, commands, allocator, writes: Vec::new() };
        (self.runs[system.0])(&mut step);
        step.writes
    }
}

/// The callback of a hook under test.
struct Callback(Box<dyn Fn(&mut Step)>);

impl SystemCallback<Fact, Anything> for Callback {
    fn run(&self, commands: &mut Commands<Fact, Anything>, allocator: &mut EntityAllocator) {
        let world: World<Fact> = World::new();
        let mut step = Step { rows: &[], world: &world, commands, allocator, writes: Vec::new() };
        (self.0)(&mut step);
    }
}

fn callback(run: impl Fn(&mut Step) + 'static) -> Callback {
    Callback(Box::new(run))
}

type Kitchen = Served<Bodies, Callback>;

struct Recipe {
    builder: BowlBuilder<Callback>,
    bodies: Bodies,
}

impl Recipe {
    fn new() -> Recipe {
        Recipe { builder: BowlBuilder::new(true), bodies: Bodies { runs: Vec::new() } }
    }

    fn system<M, S: IntoSystem<Callback, M>>(
        self,
        system: S,
        run: impl FnMut(&mut Step) + 'static,
    ) -> Recipe {
        let Recipe { builder, mut bodies } = self;
        let builder = match builder.system(system) {
            Ok(builder) => builder,
            Err(error) => panic!("{}", error.message("the system")),
        };
        bodies.runs.push(Box::new(run));
        Recipe { builder, bodies }
    }

    fn parts(self) -> (State<Fact>, Kitchen) {
        match self.builder.build() {
            Ok((state, hooks)) => (state, Served { rows: self.bodies, hooks }),
            Err(_) => panic!("the schema has too many components"),
        }
    }

    fn build(self) -> Bowl<Fact, Kitchen> {
        match self.builder.serve(self.bodies) {
            Ok(bowl) => bowl,
            Err(_) => panic!("the schema has too many components"),
        }
    }
}

fn number(fact: &Fact) -> u64 {
    match fact {
        Fact::Count { value, .. } | Fact::Note { value, .. } | Fact::Unique { value, .. } => *value,
        other => panic!("not a number: {other:?}"),
    }
}

fn text(fact: &Fact) -> Vec<u8> {
    match fact {
        Fact::Text { text, .. } => text.clone(),
        other => panic!("not a text: {other:?}"),
    }
}

fn members(fact: &Fact) -> Vec<u64> {
    match fact {
        Fact::Linked { members, .. } => members.iter().map(|entity| entity.raw()).collect(),
        other => panic!("not an inverse: {other:?}"),
    }
}

fn kind<T: ComponentType<Universe = Fact>>() -> ComponentId {
    T::component_type()
}

fn rows_of(kinds: &[ComponentId], filters: Vec<RowFilter>) -> RowQuery {
    let parts = kinds.iter().map(|component| QueryPart { component: *component, mode: PartMode::Read });
    RowQuery::new(parts.collect(), filters)
}

fn query(kinds: &[ComponentId]) -> Param {
    Param::Query(rows_of(kinds, Vec::new()))
}

fn filtered(kinds: &[ComponentId], filters: Vec<RowFilter>) -> Param {
    Param::Query(rows_of(kinds, filters))
}

fn exclusive(component: ComponentId, filters: Vec<RowFilter>) -> Param {
    Param::Query(RowQuery::new(vec![QueryPart { component, mode: PartMode::Write }], filters))
}

fn view(kinds: &[ComponentId]) -> Param {
    Param::View(rows_of(kinds, Vec::new()))
}

fn anything() -> Param {
    Param::Commands(None)
}

fn declares(kinds: &[ComponentId]) -> Param {
    Param::Commands(Some(kinds.to_vec()))
}

fn function(name: &'static str, params: Vec<Param>) -> FunctionSystem {
    FunctionSystem { name, params }
}

fn counter() -> Rc<Cell<usize>> {
    Rc::new(Cell::new(0))
}

fn bump(runs: &Rc<Cell<usize>>) {
    runs.set(runs.get() + 1);
}

fn insert<T: Bundle<Universe = Fact>>(bowl: &mut Bowl<Fact, Kitchen>, bundle: T) -> Entity {
    match bowl.insert(bundle) {
        Ok(entity) => entity,
        Err(_) => panic!("bundles can contain at most one singleton marker"),
    }
}

fn insert_on<T: Bundle<Universe = Fact>>(bowl: &mut Bowl<Fact, Kitchen>, entity: Entity, bundle: T) {
    assert!(bowl.insert_on(entity, bundle).is_ok());
}

fn no_args() -> QueryArgs<Fact> {
    QueryArgs::new()
}

fn scoop<Q: ExternalReadQueryParam<Fact>>(bowl: &mut Bowl<Fact, Kitchen>) -> QueryResult<Fact> {
    answer(bowl.scoop::<Q, ()>(&no_args(), None))
}

fn answer(result: Result<QueryResult<Fact>, ScoopError>) -> QueryResult<Fact> {
    match result {
        Ok(result) => result,
        Err(ScoopError::Unsettled(EngineError::Budget(error))) => panic!("{}", error.message()),
        Err(error) => panic!("{error:?}"),
    }
}

fn values<T: ComponentType<Universe = Fact>>(bowl: &mut Bowl<Fact, Kitchen>) -> Vec<u64> {
    let result = scoop::<(Entity, &T)>(bowl);
    numbers::<T>(bowl, &result)
}

fn numbers<T: ComponentType<Universe = Fact>>(
    bowl: &Bowl<Fact, Kitchen>,
    result: &QueryResult<Fact>,
) -> Vec<u64> {
    result.rows().iter().map(|row| number(result.get::<_, T>(bowl, *row).unwrap())).collect()
}

fn value_on<T: ComponentType<Universe = Fact>>(bowl: &mut Bowl<Fact, Kitchen>, entity: Entity) -> Option<u64> {
    let result = scoop::<(Entity, &T)>(bowl);
    if result.rows().iter().any(|row| row.raw() == entity.raw()) {
        result.get::<_, T>(bowl, entity).map(number)
    } else {
        None
    }
}

fn how_many<T: ComponentType<Universe = Fact>>(bowl: &mut Bowl<Fact, Kitchen>) -> usize {
    scoop::<(Entity, &T)>(bowl).len()
}

fn set_of(values: Vec<u64>) -> BTreeSet<u64> {
    values.into_iter().collect()
}

/// `B` is one more than `A`.
fn make_b() -> FunctionSystem {
    function("make_b", vec![query(&[kind::<A>()]), anything()])
}

fn run_make_b(step: &mut Step) {
    let row = step.row(0);
    let value = step.num::<A>(row) + 1;
    step.put::<B>(row, Count(value));
}

fn cleanup_stale() -> FunctionSystem {
    function("cleanup_stale_derived", vec![Param::Meta, declares(&[])])
}

fn run_cleanup_stale(step: &mut Step) {
    let meta = bowl::config::WorldMetaView { snapshot: step.world };
    bowl::config::cleanup_stale_derived(&meta, step.commands);
}

fn derived(sources: &[Entity]) -> Fact {
    Fact::Derived(DerivedFrom::many(sources.to_vec()))
}

fn count_fact<T: ComponentType<Universe = Fact>>(value: T) -> Fact {
    value.erase()
}

#[test]
fn system_mut_applies_non_idempotent_mutation_exactly_once() {
    let runs = counter();
    let seen = runs.clone();
    let mut bowl = Recipe::new()
        .system(
            function(
                "increment_once",
                vec![exclusive(kind::<MutableA>(), vec![RowFilter::Without(kind::<Mark>())]), anything()],
            ),
            move |step| {
                bump(&seen);
                let row = step.row(0);
                let value = step.num::<MutableA>(row) + 1;
                step.write::<MutableA>(row, Count(value));
                step.put::<Mark>(row, Count(0));
            },
        )
        .build();
    insert(&mut bowl, (Count::<10>(0),));

    assert_eq!(values::<MutableA>(&mut bowl)[0], 1);
    assert_eq!(runs.get(), 1);
}

#[test]
fn system_mut_write_does_not_invalidate_its_own_memo() {
    let runs = counter();
    let seen = runs.clone();
    let mut bowl = Recipe::new()
        .system(
            function("set_rank_unconditionally", vec![exclusive(kind::<Rank>(), Vec::new())]),
            move |step| {
                bump(&seen);
                let row = step.row(0);
                step.write::<Rank>(row, Count(42));
            },
        )
        .build();
    insert(&mut bowl, (Count::<12>(1),));

    assert_eq!(values::<Rank>(&mut bowl)[0], 42);
    assert_eq!(runs.get(), 1);
}

#[test]
fn removing_an_entity_purges_its_memo_entries() {
    let mut bowl = Recipe::new()
        .system(make_b(), run_make_b)
        .system(
            function(
                "remove_doomed",
                vec![filtered(&[], vec![RowFilter::With(kind::<Doomed>())]), anything()],
            ),
            |step| step.remove(step.row(0)),
        )
        .build();
    insert(&mut bowl, (Count::<0>(1), Count::<13>(0)));

    assert_eq!(how_many::<A>(&mut bowl), 0);
    let report = bowl.explain("make_b").unwrap();
    assert_eq!(report.matched_rows, 0);
    assert_eq!(report.memoized_rows, 0);
}

#[test]
fn rerun_replaces_spawned_outputs_and_reuses_entity_ids() {
    let mut bowl = Recipe::new()
        .system(
            function("spawn_b_note_from_a", vec![query(&[kind::<MutableA>()]), anything()]),
            |step| {
                let row = step.row(0);
                let value = step.num::<MutableA>(row) % 2;
                step.spawn(vec![derived(&[row]), count_fact(Count::<1>(value))]);
            },
        )
        .build();
    let source = insert(&mut bowl, (Count::<10>(0),));

    let first = scoop::<(Entity, &B)>(&mut bowl);
    assert_eq!(first.len(), 1);
    let first_entity = first.rows()[0].raw();

    for round in 1..4u32 {
        let outcome = bowl.for_each::<(Entity, bowl::query::Cow<MutableA>), (), _>(
            &no_args(),
            None,
            |_, value: &Fact| Count::<10>(number(value) + 2).erase(),
        );
        assert!(outcome.is_ok());

        let notes = scoop::<(Entity, &B)>(&mut bowl);
        assert_eq!(notes.len(), 1, "round {round}");
        assert_eq!(notes.rows()[0].raw(), first_entity, "round {round}");
    }

    assert_ne!(first_entity, source.raw());
}

#[test]
fn query_runs_pending_generation() {
    let runs = counter();
    let seen = runs.clone();
    let mut bowl = Recipe::new()
        .system(make_b(), move |step| {
            bump(&seen);
            run_make_b(step);
        })
        .build();

    let inserted = insert(&mut bowl, (Count::<0>(41),));
    let result = scoop::<(Entity, &B)>(&mut bowl);

    assert_eq!(result.len(), 1);
    assert_eq!(result.rows()[0].raw(), inserted.raw());
    assert_eq!(numbers::<B>(&bowl, &result)[0], 42);
    assert_eq!(runs.get(), 1);
}

#[test]
fn clean_query_does_not_rerun_systems() {
    let runs = counter();
    let seen = runs.clone();
    let mut bowl = Recipe::new()
        .system(function("make_c", vec![query(&[kind::<A>()]), anything()]), move |step| {
            bump(&seen);
            let row = step.row(0);
            let value = step.num::<A>(row) + 1;
            step.put::<C>(row, Count(value));
        })
        .build();

    insert(&mut bowl, (Count::<0>(1),));
    let rows = values::<C>(&mut bowl);
    assert_eq!(rows.len(), 1);
    assert_eq!(rows[0], 2);
    assert_eq!(runs.get(), 1);

    assert_eq!(how_many::<C>(&mut bowl), 1);
    assert_eq!(runs.get(), 1);
}

#[test]
fn derived_from_cleanup_removes_outputs_when_owner_revision_changes() {
    let mut bowl = Recipe::new()
        .system(
            function(
                "make_derived_from_answer_from_view",
                vec![query(&[kind::<Request>()]), view(&[kind::<MutableA>()]), anything()],
            ),
            |step| {
                let source = step.all::<MutableA>()[0];
                let value = step.num::<MutableA>(source);
                step.spawn(vec![derived(&[source]), count_fact(Count::<7>(value))]);
            },
        )
        .system(cleanup_stale().run_during(Phase::Settle), run_cleanup_stale)
        .build();

    let inserted = insert(&mut bowl, (Count::<10>(1),));
    insert(&mut bowl, (Count::<6>(0),));
    let rows = values::<Answer>(&mut bowl);
    assert_eq!(rows.len(), 1);
    assert_eq!(rows[0], 1);

    let outcome = bowl.for_each::<(Entity, bowl::query::Cow<MutableA>), (), _>(
        &no_args(),
        None,
        |entity: Entity, value: &Fact| {
            let changed = if entity.raw() == inserted.raw() { 2 } else { number(value) };
            Count::<10>(changed).erase()
        },
    );
    assert!(outcome.is_ok());

    assert_eq!(how_many::<Answer>(&mut bowl), 0);
}

#[test]
fn derived_from_many_cleanup_removes_outputs_when_any_owner_revision_changes() {
    let mut bowl = Recipe::new()
        .system(
            function(
                "make_multi_derived_from_answer_from_view",
                vec![
                    query(&[kind::<Request>()]),
                    view(&[kind::<MutableA>()]),
                    view(&[kind::<Label>()]),
                    anything(),
                ],
            ),
            |step| {
                let value_entity = step.all::<MutableA>()[0];
                let label_entity = step.all::<Label>()[0];
                let value = step.num::<MutableA>(value_entity);
                step.spawn(vec![
                    derived(&[value_entity, label_entity]),
                    count_fact(Count::<7>(value)),
                ]);
            },
        )
        .system(cleanup_stale().run_during(Phase::Settle), run_cleanup_stale)
        .build();

    insert(&mut bowl, (Count::<10>(1),));
    let label = insert(&mut bowl, (Count::<11>(5),));
    insert(&mut bowl, (Count::<6>(0),));

    let rows = values::<Answer>(&mut bowl);
    assert_eq!(rows.len(), 1);
    assert_eq!(rows[0], 1);

    let outcome = bowl.for_each::<(Entity, bowl::query::Cow<Label>), (), _>(
        &no_args(),
        None,
        |entity: Entity, value: &Fact| {
            let changed = if entity.raw() == label.raw() { 6 } else { number(value) };
            Count::<11>(changed).erase()
        },
    );
    assert!(outcome.is_ok());

    assert_eq!(how_many::<Answer>(&mut bowl), 0);
}

fn count_bs() -> FunctionSystem {
    function("count_bs", vec![query(&[kind::<A>()]), view(&[kind::<B>()]), anything()])
}

fn run_count_bs(step: &mut Step) {
    let row = step.row(0);
    let found = step.all::<B>().len() as u64;
    step.put::<Tally>(row, Count(found));
}

#[test]
fn async_system_can_read_ambient_view() {
    let mut bowl = Recipe::new().system(count_bs(), run_count_bs).build();

    insert(&mut bowl, (Count::<0>(1),));
    insert(&mut bowl, (Count::<1>(10),));
    insert(&mut bowl, (Count::<1>(20),));

    assert_eq!(values::<Tally>(&mut bowl), vec![2]);
}

#[test]
fn commands_can_insert_derived_entities() {
    let mut bowl = Recipe::new()
        .system(function("spawn_b", vec![query(&[kind::<A>()]), anything()]), |step| {
            let value = step.num::<A>(step.row(0)) + 1;
            step.spawn(vec![count_fact(Count::<1>(value))]);
        })
        .build();

    insert(&mut bowl, (Count::<0>(41),));
    assert_eq!(values::<B>(&mut bowl), vec![42]);
}

#[test]
fn with_filter_does_not_appear_in_query_item() {
    let mut bowl = Recipe::new()
        .system(
            function(
                "count_tagged_a",
                vec![filtered(&[kind::<A>()], vec![RowFilter::With(kind::<Request>())]), anything()],
            ),
            |step| {
                let row = step.row(0);
                step.put::<Tally>(row, Count(1));
            },
        )
        .build();

    insert(&mut bowl, (Count::<0>(1),));
    insert(&mut bowl, (Count::<6>(0), Count::<0>(2)));

    assert_eq!(values::<Tally>(&mut bowl), vec![1]);
}

#[test]
fn two_query_system_runs_cross_product_rows() {
    let mut bowl = Recipe::new()
        .system(
            function("sum_a_b", vec![query(&[kind::<A>()]), query(&[kind::<B>()]), anything()]),
            |step| {
                let (a, b) = (step.row(0), step.row(1));
                let sum = step.num::<A>(a) + step.num::<B>(b);
                step.put::<Sum>(a, Count(sum));
                step.put::<Sum>(b, Count(sum));
            },
        )
        .build();

    insert(&mut bowl, (Count::<0>(2),));
    insert(&mut bowl, (Count::<1>(3),));

    let rows = values::<Sum>(&mut bowl);
    assert_eq!(rows.len(), 2);
    assert!(rows.iter().all(|sum| *sum == 5));
}

#[test]
fn two_query_view_system_can_gate_on_readiness() {
    let mut bowl = Recipe::new()
        .system(
            function(
                "count_a_when_c_exists",
                vec![
                    query(&[kind::<A>()]),
                    query(&[kind::<C>()]),
                    view(&[kind::<B>()]),
                    anything(),
                ],
            ),
            run_count_bs,
        )
        .build();

    insert(&mut bowl, (Count::<0>(1),));
    insert(&mut bowl, (Count::<1>(10),));
    assert_eq!(how_many::<Tally>(&mut bowl), 0);

    insert(&mut bowl, (Count::<2>(0),));
    assert_eq!(values::<Tally>(&mut bowl), vec![1]);
}

#[test]
fn evaluate_phase_replans_before_complete_phase_runs() {
    let mut bowl = Recipe::new()
        .system(make_b(), run_make_b)
        .system(function("make_c_from_b", vec![query(&[kind::<B>()]), anything()]), |step| {
            let row = step.row(0);
            let value = step.num::<B>(row) + 1;
            step.put::<C>(row, Count(value));
        })
        .system(
            function("count_cs", vec![query(&[kind::<A>()]), view(&[kind::<C>()]), anything()])
                .run_during(Phase::Complete),
            |step| {
                let row = step.row(0);
                let found = step.all::<C>().len() as u64;
                step.put::<Tally>(row, Count(found));
            },
        )
        .build();

    insert(&mut bowl, (Count::<0>(1),));
    assert_eq!(values::<Tally>(&mut bowl), vec![1]);
}

#[test]
fn singleton_insert_reuses_entity() {
    let mut bowl = Recipe::new().build();

    let first = insert(&mut bowl, (Unique::<0>(0), Count::<0>(1), Count::<6>(0)));
    let second = insert(&mut bowl, (Unique::<0>(0), Count::<0>(2), Count::<6>(0)));

    let result = scoop::<(Entity, &A)>(&mut bowl);
    assert_eq!(first.raw(), second.raw());
    assert_eq!(result.len(), 1);
    assert_eq!(result.rows()[0].raw(), first.raw());
    assert_eq!(numbers::<A>(&bowl, &result)[0], 2);
}

#[test]
fn derived_singleton_insert_reuses_entity() {
    let mut bowl = Recipe::new()
        .system(
            function("write_singleton_count", vec![query(&[kind::<A>()]), anything()]),
            |step| {
                let value = step.num::<A>(step.row(0));
                step.spawn(vec![count_fact(Unique::<4>(0)), count_fact(Count::<4>(value))]);
            },
        )
        .build();

    insert(&mut bowl, (Count::<0>(1),));
    insert(&mut bowl, (Count::<0>(2),));

    assert_eq!(values::<Tally>(&mut bowl), vec![2]);
}

#[test]
#[should_panic(expected = "bundles can contain at most one singleton marker")]
fn bundle_rejects_multiple_singleton_markers() {
    let mut bowl = Recipe::new().build();
    insert(&mut bowl, (Unique::<0>(0), Unique::<1>(0), Count::<0>(1), Count::<1>(2)));
}

#[test]
fn commit_limit_is_configurable() {
    let mut bowl = Recipe::new().build();

    assert_eq!(bowl.commit_limit(), CommitLimit::Max(10_000));

    bowl.set_commit_limit(CommitLimit::Unlimited);
    assert_eq!(bowl.commit_limit(), CommitLimit::Unlimited);

    bowl.set_commit_limit(CommitLimit::Max(2));
    assert_eq!(bowl.commit_limit(), CommitLimit::Max(2));
}

#[test]
#[should_panic(expected = "bowl commit limit exceeded")]
fn commit_limit_panics_on_non_converging_commits() {
    let mut bowl = Recipe::new()
        .system(
            function(
                "spawn_a_from_a",
                vec![filtered(&[], vec![RowFilter::With(kind::<A>())]), anything()],
            ),
            |step| {
                step.spawn(vec![count_fact(Count::<0>(0))]);
            },
        )
        .build();
    bowl.set_commit_limit(CommitLimit::Max(2));

    insert(&mut bowl, (Count::<0>(1),));
    how_many::<A>(&mut bowl);
}

#[test]
fn systems_can_run_during_specific_phases() {
    let log: Rc<RefCell<Vec<&'static str>>> = Rc::new(RefCell::new(Vec::new()));
    let (first, second, third) = (log.clone(), log.clone(), log.clone());
    let mut bowl = Recipe::new()
        .system(make_b().run_during(Phase::Startup), move |step| {
            first.borrow_mut().push("startup");
            let row = step.row(0);
            step.put::<B>(row, Count(1));
        })
        .system(
            function("evaluate_phase", vec![query(&[kind::<A>()]), view(&[kind::<B>()])]),
            move |step| {
                if step.all::<B>().len() == 1 {
                    second.borrow_mut().push("evaluate-after-startup");
                }
            },
        )
        .system(
            function("cleanup_phase", vec![query(&[kind::<A>()]), view(&[kind::<B>()])])
                .run_during(Phase::Settle),
            move |step| {
                if step.all::<B>().len() == 1 {
                    third.borrow_mut().push("cleanup");
                }
            },
        )
        .build();

    insert(&mut bowl, (Count::<0>(1),));
    how_many::<B>(&mut bowl);
    assert_eq!(*log.borrow(), ["startup", "evaluate-after-startup", "cleanup"]);

    insert(&mut bowl, (Count::<0>(2),));
    how_many::<B>(&mut bowl);
    assert_eq!(
        *log.borrow(),
        [
            "startup",
            "evaluate-after-startup",
            "cleanup",
            "evaluate-after-startup",
            "cleanup"
        ]
    );
}

fn due(world: &World<Fact>, hook: Hook) -> usize {
    world.due_hooks().iter().filter(|run| run.hook == hook && run.kind == kind::<A>()).count()
}

#[test]
fn component_lifecycle_hooks_fire_for_insert_take_and_entity_remove() {
    let mut world: World<Fact> = World::new();
    let entity = world.spawn_empty();
    assert!(world.insert_base(entity, Count::<0>(1).erase()).is_ok());
    assert!(<A as TakeBundle>::take(&mut world, entity).is_ok());

    assert_eq!(due(&world, Hook::Insert), 1);
    assert_eq!(due(&world, Hook::Remove), 1);
    assert_eq!(due(&world, Hook::EntityRemove), 0);

    let entity = world.spawn_empty();
    assert!(world.insert_base(entity, Count::<0>(1).erase()).is_ok());
    world.remove_entity(entity);

    assert_eq!(due(&world, Hook::Insert), 2);
    assert_eq!(due(&world, Hook::Remove), 2);
    assert_eq!(due(&world, Hook::EntityRemove), 1);
}

#[test]
fn untracked_components_do_not_invalidate_clean_systems() {
    let runs = counter();
    let seen = runs.clone();
    let mut bowl = Recipe::new()
        .system(make_b(), move |step| {
            bump(&seen);
            run_make_b(step);
        })
        .build();
    insert(&mut bowl, (Count::<0>(1),));

    assert_eq!(how_many::<B>(&mut bowl), 1);
    assert_eq!(runs.get(), 1);

    insert(&mut bowl, (Note::<0>(0),));

    assert_eq!(how_many::<B>(&mut bowl), 1);
    assert_eq!(runs.get(), 1);
}

fn args<T: ArgBundle<Universe = Fact>>(values: T) -> QueryArgs<Fact> {
    let mut args = QueryArgs::new();
    if !values.insert_into(&mut args, None) {
        panic!("duplicate query argument");
    }
    args
}

#[test]
fn external_queries_support_bound_where_filters() {
    let mut bowl = Recipe::new().build();
    insert(&mut bowl, (Count::<0>(1), Count::<11>(MAIN), Count::<12>(1)));
    insert(&mut bowl, (Count::<0>(2), Count::<11>(MAIN), Count::<12>(3)));
    insert(&mut bowl, (Count::<0>(3), Count::<11>(LIB), Count::<12>(4)));

    let bound = args((Count::<11>(MAIN), Count::<12>(2)));
    let result = answer(
        bowl.scoop::<(Entity, &A), Where<And<bowl::query::Eq<Label>, Gte<Rank>>>>(&bound, None),
    );
    assert_eq!(numbers::<A>(&bowl, &result), vec![2]);
}

#[test]
#[should_panic(expected = "duplicate query argument")]
fn query_args_reject_duplicate_arg_types_in_same_scope() {
    let _args = args((Count::<11>(MAIN), Count::<11>(LIB)));
}

#[test]
fn scoop_can_return_multiple_independent_query_results() {
    let mut bowl = Recipe::new().build();
    insert(&mut bowl, (Count::<0>(1), Count::<11>(MAIN)));
    insert(&mut bowl, (Count::<0>(2), Count::<11>(LIB)));

    let bound = args(Count::<11>(MAIN));
    let settled = bowl.settled().unwrap();
    let all = read_from::<Fact, (Entity, &A), ()>(settled.clone(), &bound, None).unwrap();
    let main =
        read_from::<Fact, (Entity, &A), Where<bowl::query::Eq<Label>>>(settled, &bound, None)
            .unwrap();

    assert_eq!(all.len(), 2);
    assert_eq!(main.len(), 1);
    assert_eq!(numbers::<A>(&bowl, &main)[0], 1);
}

#[test]
fn named_scoops_bind_args_to_individual_queries() {
    let mut bowl = Recipe::new().build();
    insert(&mut bowl, (Count::<0>(1), Count::<11>(MAIN)));
    insert(&mut bowl, (Count::<0>(2), Count::<11>(LIB)));

    let mut bound: QueryArgs<Fact> = QueryArgs::new();
    assert!(Count::<11>(MAIN).insert_into(&mut bound, Some(1)));
    assert!(Count::<11>(LIB).insert_into(&mut bound, Some(2)));
    let settled = bowl.settled().unwrap();
    let main = read_from::<Fact, (Entity, &A), Where<bowl::query::Eq<Label>>>(
        settled.clone(),
        &bound,
        Some(1),
    )
    .unwrap();
    let lib =
        read_from::<Fact, (Entity, &A), Where<bowl::query::Eq<Label>>>(settled, &bound, Some(2))
            .unwrap();

    assert_eq!(numbers::<A>(&bowl, &main)[0], 1);
    assert_eq!(numbers::<A>(&bowl, &lib)[0], 2);
}

fn copy_rank() -> FunctionSystem {
    function("copy_rank_to_count", vec![query(&[kind::<Rank>()]), anything()])
}

fn run_copy_rank(step: &mut Step) {
    let row = step.row(0);
    let value = step.num::<Rank>(row);
    step.put::<Tally>(row, Count(value));
}

#[test]
fn external_queries_can_mutate_bound_rows() {
    let mut bowl = Recipe::new().system(copy_rank(), run_copy_rank).build();
    insert(&mut bowl, (Count::<11>(MAIN), Count::<12>(1)));
    insert(&mut bowl, (Count::<11>(LIB), Count::<12>(2)));

    assert_eq!(values::<Tally>(&mut bowl).iter().sum::<u64>(), 3);

    let main = args(Count::<11>(MAIN));
    let outcome = bowl
        .for_each::<(Entity, bowl::query::Cow<Rank>), Where<bowl::query::Eq<Label>>, _>(
            &main,
            None,
            |_, _: &Fact| Count::<12>(10).erase(),
        );
    assert!(outcome.is_ok());

    let ranks =
        answer(bowl.scoop::<(Entity, &Rank), Where<bowl::query::Eq<Label>>>(&main, None));
    assert_eq!(numbers::<Rank>(&bowl, &ranks), vec![10]);

    assert_eq!(values::<Tally>(&mut bowl).iter().sum::<u64>(), 12);
}

#[test]
fn external_mut_handles_update_inside_scoped_closure() {
    let mut bowl = Recipe::new().system(copy_rank(), run_copy_rank).build();
    insert(&mut bowl, (Count::<11>(MAIN), Count::<12>(1)));
    insert(&mut bowl, (Count::<11>(LIB), Count::<12>(2)));

    let main = args(Count::<11>(MAIN));
    let handles =
        bowl.scoop_mut::<Rank, Where<bowl::query::Eq<Label>>>(&main, None).unwrap();
    assert_eq!(handles.len(), 1);

    let updated = bowl.with_latest(&handles[0], |_, _: &Fact| (Count::<12>(7).erase(), 7));
    assert_eq!(updated, Some(7));

    let ranks =
        answer(bowl.scoop::<(Entity, &Rank), Where<bowl::query::Eq<Label>>>(&main, None));
    assert_eq!(numbers::<Rank>(&bowl, &ranks), vec![7]);

    assert_eq!(values::<Tally>(&mut bowl).iter().sum::<u64>(), 9);
}

#[test]
fn external_mut_handles_without_entity_update_live_components() {
    let mut bowl = Recipe::new().build();
    insert(&mut bowl, (Count::<10>(1),));

    let handles = bowl.scoop_mut::<MutableA, ()>(&no_args(), None).unwrap();
    assert_eq!(handles.len(), 1);
    let outcome =
        bowl.with_latest(&handles[0], |_, value: &Fact| (Count::<10>(number(value) + 4).erase(), ()));
    assert_eq!(outcome, Some(()));

    assert_eq!(values::<MutableA>(&mut bowl), vec![5]);
}

#[test]
fn external_mut_skips_invalidation_when_fingerprint_is_unchanged() {
    let runs = counter();
    let seen = runs.clone();
    let mut bowl = Recipe::new()
        .system(
            function("copy_fingerprinted_rank_to_count", vec![query(&[kind::<Key>()]), anything()]),
            move |step| {
                bump(&seen);
                let row = step.row(0);
                let value = step.text::<Key>(row)[0] as u64;
                step.put::<Tally>(row, Count(value));
            },
        )
        .build();
    insert(&mut bowl, (rank(1),));

    assert_eq!(values::<Tally>(&mut bowl)[0], 1);
    assert_eq!(runs.get(), 1);

    let handle = bowl.scoop_mut::<Key, ()>(&no_args(), None).unwrap()[0];
    assert_eq!(bowl.with_latest(&handle, |_, _: &Fact| (rank(1).erase(), ())), Some(()));

    assert_eq!(values::<Tally>(&mut bowl)[0], 1);
    assert_eq!(runs.get(), 1);

    assert_eq!(bowl.with_latest(&handle, |_, _: &Fact| (rank(2).erase(), ())), Some(()));

    assert_eq!(values::<Tally>(&mut bowl)[0], 2);
    assert_eq!(runs.get(), 2);
}

#[test]
fn external_mut_conservatively_invalidates_without_fingerprint() {
    let runs = counter();
    let seen = runs.clone();
    let mut bowl = Recipe::new()
        .system(copy_rank(), move |step| {
            bump(&seen);
            run_copy_rank(step);
        })
        .build();
    insert(&mut bowl, (Count::<12>(1),));

    assert_eq!(values::<Tally>(&mut bowl)[0], 1);
    assert_eq!(runs.get(), 1);

    let handle = bowl.scoop_mut::<Rank, ()>(&no_args(), None).unwrap()[0];
    assert_eq!(bowl.with_latest(&handle, |_, _: &Fact| (Count::<12>(1).erase(), ())), Some(()));

    assert_eq!(values::<Tally>(&mut bowl)[0], 1);
    assert_eq!(runs.get(), 2);
}

#[test]
fn external_mut_original_rejects_stale_handles() {
    let mut bowl = Recipe::new().build();
    insert(&mut bowl, (Count::<12>(1),));

    let handle = bowl.scoop_mut::<Rank, ()>(&no_args(), None).unwrap()[0];

    assert_eq!(bowl.with_latest(&handle, |_, _: &Fact| (Count::<12>(2).erase(), ())), Some(()));
    assert_eq!(bowl.with_original(&handle, |_, _: &Fact| (Count::<12>(3).erase(), ())), None);

    assert_eq!(values::<Rank>(&mut bowl), vec![2]);
}

#[test]
fn external_mut_does_not_require_clone() {
    let mut bowl = Recipe::new().build();
    insert(&mut bowl, (Count::<8>(1),));

    let handle = bowl.scoop_mut::<NonClone, ()>(&no_args(), None).unwrap()[0];
    assert_eq!(bowl.with_latest(&handle, |_, _: &Fact| (Count::<8>(9).erase(), ())), Some(()));

    assert_eq!(values::<NonClone>(&mut bowl), vec![9]);
}

fn publish_mark(step: &mut Step) {
    step.spawn(vec![
        count_fact(Unique::<9>(0)),
        count_fact(Count::<9>(0)),
        count_fact(Note::<0>(0)),
    ]);
}

fn publish_untracked(step: &mut Step) {
    step.spawn(vec![count_fact(Unique::<16>(0)), count_fact(Note::<0>(0))]);
}

fn cleanup_untracked() -> FunctionSystem {
    function(
        "cleanup_untracked_marker",
        vec![filtered(&[], vec![RowFilter::With(kind::<Untracked>())]), anything()],
    )
}

fn run_remove(step: &mut Step) {
    step.remove(step.row(0));
}

fn mark_b_processed() -> FunctionSystem {
    function("mark_b_processed", vec![query(&[kind::<B>()]), anything()])
}

fn run_mark_b(step: &mut Step) {
    let row = step.row(0);
    step.put::<D>(row, Count(1));
}

fn answer_after_marker() -> FunctionSystem {
    function(
        "answer_after_untracked_marker",
        vec![
            filtered(&[], vec![RowFilter::With(kind::<Untracked>())]),
            query(&[kind::<Request>()]),
            view(&[kind::<D>()]),
            anything(),
        ],
    )
}

fn run_answer_after(step: &mut Step) {
    let row = step.row(1);
    let processed = step.all::<D>().len() as u64;
    step.put::<Answer>(row, Count(processed));
}

#[test]
fn cleanup_runs_after_normal_phases_settle() {
    let mut bowl = Recipe::new()
        .system(make_b().on_complete::<Callback, Anything>(callback(publish_mark)), run_make_b)
        .system(
            function(
                "count_after_note",
                vec![
                    filtered(&[], vec![RowFilter::With(kind::<Mark>())]),
                    query(&[kind::<A>()]),
                    anything(),
                ],
            )
            .run_during(Phase::Complete),
            |step| {
                let row = step.row(1);
                step.put::<Tally>(row, Count(1));
            },
        )
        .system(cleanup_untracked().run_during(Phase::Settle), run_remove)
        .build();

    insert(&mut bowl, (Count::<0>(1),));

    assert_eq!(how_many::<Tally>(&mut bowl), 1);
    assert_eq!(how_many::<Mark>(&mut bowl), 0);
}

#[test]
fn on_complete_waits_for_same_phase_upstream_work_to_settle() {
    let mut bowl = Recipe::new()
        .system(make_b(), run_make_b)
        .system(mark_b_processed().on_settled::<Callback, Anything>(callback(publish_mark)), run_mark_b)
        .system(
            function(
                "count_bs_after_note",
                vec![
                    filtered(&[], vec![RowFilter::With(kind::<Mark>())]),
                    query(&[kind::<D>()]),
                    view(&[kind::<D>()]),
                    anything(),
                ],
            )
            .run_during(Phase::Complete),
            |step| {
                let row = step.row(1);
                let processed = step.all::<D>().len() as u64;
                step.put::<Tally>(row, Count(processed));
            },
        )
        .system(cleanup_untracked().run_during(Phase::Settle), run_remove)
        .build();

    insert(&mut bowl, (Count::<1>(0),));
    assert_eq!(how_many::<Tally>(&mut bowl), 1);

    insert(&mut bowl, (Count::<0>(1),));

    let counts = values::<Tally>(&mut bowl);
    assert_eq!(counts.len(), 2);
    assert!(counts.iter().all(|count| *count == 2));
}

fn gated_by_marker() -> Bowl<Fact, Kitchen> {
    Recipe::new()
        .system(make_b(), run_make_b)
        .system(mark_b_processed().on_settled::<Callback, Anything>(callback(publish_untracked)), run_mark_b)
        .system(answer_after_marker().run_during(Phase::Complete), run_answer_after)
        .system(cleanup_untracked().run_during(Phase::Settle), run_remove)
        .build()
}

fn take_number<T: ComponentType<Universe = Fact>>(bowl: &mut Bowl<Fact, Kitchen>, bound: BoundEntity) -> u64 {
    number(&bowl.take::<T>(bound).unwrap().unwrap())
}

#[test]
fn on_complete_does_not_publish_gate_while_upstream_work_is_pending() {
    let mut bowl = gated_by_marker();

    insert(&mut bowl, (Count::<1>(0),));
    how_many::<D>(&mut bowl);

    let entity = insert(&mut bowl, (Count::<0>(1), Count::<6>(0)));
    let bound = bowl.bind(entity);

    assert_eq!(take_number::<Answer>(&mut bowl, bound), 2);
}

#[test]
fn on_settled_runs_before_cleanup_and_can_continue_evaluation() {
    let mut bowl = gated_by_marker();

    insert(&mut bowl, (Count::<1>(0),));
    how_many::<D>(&mut bowl);

    let entity = insert(&mut bowl, (Count::<0>(1), Count::<6>(0)));
    let bound = bowl.bind(entity);

    assert_eq!(take_number::<Answer>(&mut bowl, bound), 2);
    assert_eq!(how_many::<Untracked>(&mut bowl), 0);
}

#[test]
fn on_start_and_on_complete_wrap_planned_system_work() {
    let log: Rc<RefCell<Vec<&'static str>>> = Rc::new(RefCell::new(Vec::new()));
    let (row, start, complete) = (log.clone(), log.clone(), log.clone());
    let mut bowl = Recipe::new()
        .system(
            make_b()
                .on_start::<Callback, Anything>(callback(move |_| start.borrow_mut().push("start")))
                .on_complete::<Callback, Anything>(callback(move |_| {
                    complete.borrow_mut().push("complete")
                })),
            move |step| {
                row.borrow_mut().push("row");
                run_make_b(step);
            },
        )
        .build();

    insert(&mut bowl, (Count::<0>(1),));
    how_many::<B>(&mut bowl);
    assert_eq!(*log.borrow(), vec!["start", "row", "complete"]);

    how_many::<B>(&mut bowl);
    assert_eq!(*log.borrow(), vec!["start", "row", "complete"]);
}

#[test]
fn system_params_support_arbitrary_mixed_order() {
    let mut bowl = Recipe::new()
        .system(
            function(
                "mixed_param_system",
                vec![
                    query(&[kind::<A>()]),
                    view(&[kind::<B>()]),
                    anything(),
                    query(&[kind::<C>()]),
                    query(&[kind::<D>()]),
                    view(&[kind::<Tally>()]),
                ],
            ),
            |step| {
                let row = step.row(0);
                let sum = step.num::<A>(row)
                    + step.num::<C>(step.row(3))
                    + step.num::<D>(step.row(4))
                    + step.all::<B>().len() as u64
                    + step.all::<Tally>().len() as u64;
                step.put::<Sum>(row, Count(sum));
            },
        )
        .build();

    insert(&mut bowl, (Count::<0>(1),));
    insert(&mut bowl, (Count::<1>(10),));
    insert(&mut bowl, (Count::<1>(20),));
    insert(&mut bowl, (Count::<2>(2),));
    insert(&mut bowl, (Count::<3>(3),));

    assert_eq!(values::<Sum>(&mut bowl), vec![8]);
}

fn answer_request() -> FunctionSystem {
    function("answer_request", vec![query(&[kind::<Request>()]), anything()])
}

fn run_answer_request(step: &mut Step) {
    let row = step.row(0);
    step.put::<Answer>(row, Count(42));
}

fn ask(bowl: &mut Bowl<Fact, Kitchen>) -> BoundEntity {
    let entity = insert(bowl, (Count::<6>(0),));
    bowl.bind(entity)
}

#[test]
fn bound_entity_take_consumes_output_and_cleans_scope() {
    let mut bowl = Recipe::new().system(answer_request(), run_answer_request).build();

    let request = ask(&mut bowl);
    assert_eq!(take_number::<Answer>(&mut bowl, request), 42);
    assert_eq!(how_many::<Answer>(&mut bowl), 0);
}

#[test]
fn bound_entity_take_does_not_require_clone() {
    let mut bowl = Recipe::new()
        .system(answer_request(), |step| {
            let row = step.row(0);
            step.put::<NonClone>(row, Count(42));
        })
        .build();

    let request = ask(&mut bowl);
    assert_eq!(take_number::<NonClone>(&mut bowl, request), 42);
    assert_eq!(how_many::<NonClone>(&mut bowl), 0);
}

#[test]
fn bound_entity_take_supports_required_and_optional_outputs() {
    let mut bowl = Recipe::new().system(answer_request(), run_answer_request).build();

    let request = ask(&mut bowl);
    let (answer, mark) = bowl.take::<(Answer, Option<Mark>)>(request).unwrap().unwrap();

    assert_eq!(number(&answer), 42);
    assert!(mark.is_none());
    assert_eq!(how_many::<Answer>(&mut bowl), 0);
}

#[test]
fn bound_entity_take_removes_leftover_outputs() {
    let mut bowl = Recipe::new()
        .system(answer_request(), |step| {
            let row = step.row(0);
            step.put::<Answer>(row, Count(42));
            step.put::<Mark>(row, Count(0));
        })
        .build();

    let request = ask(&mut bowl);
    assert_eq!(take_number::<Answer>(&mut bowl, request), 42);
    assert_eq!(how_many::<Mark>(&mut bowl), 0);
}

#[test]
fn take_names_the_component_that_is_missing() {
    let mut bowl = Recipe::new().build();
    let request = ask(&mut bowl);
    let entity = request.entity();
    let error = match bowl.take::<Answer>(request).unwrap() {
        Err(error) => error,
        Ok(_) => panic!("nothing answers"),
    };
    assert_eq!(error.entity().raw(), entity.raw());
    assert_eq!(error.component(), "Count");
    assert_eq!(
        error.message(),
        format!("entity {} is missing required component Count", entity.raw())
    );
    assert_eq!(how_many::<Request>(&mut bowl), 0);
}

fn derive_sum() -> FunctionSystem {
    function("derive_sum", vec![query(&[kind::<D>()]), anything()])
}

fn run_derive_sum(step: &mut Step) {
    let row = step.row(0);
    let value = step.num::<D>(row);
    step.spawn(vec![derived(&[row]), count_fact(Count::<5>(value))]);
}

fn sums(state: &State<Fact>, snapshot: Arc<World<Fact>>) -> BTreeSet<u64> {
    let result = read_from::<Fact, (Entity, &Sum), ()>(snapshot, &no_args(), None).unwrap();
    let value = |row: &Entity| number(result.get_in::<Sum>(state, *row).unwrap());
    result.rows().iter().map(value).collect()
}

#[test]
fn last_settled_scoop_reads_without_waiting() {
    let (mut state, mut kitchen) = Recipe::new().system(derive_sum(), run_derive_sum).parts();
    put(&mut state, Count::<3>(1).erase());
    assert!(state.settle(&mut kitchen, CommitLimit::Unlimited).is_ok());
    let settled = state.snapshot();
    assert_eq!(sums(&state, settled), set_of(vec![1]));

    // The evaluation of the second input has started and is held.
    put(&mut state, Count::<3>(2).erase());
    let Evaluation { generation, startup, mut memo } = begin(&mut state);
    let stale = state.last_settled();
    assert_eq!(sums(&state, stale), set_of(vec![1]));

    let mut plan = PhasePlan::new(startup);
    let mut budget = CommitBudget::new(CommitLimit::Unlimited);
    run_phases(&mut state, &mut kitchen, &mut plan, &mut memo, &mut budget);
    state.finish_evaluation(generation, memo, plan.changed());
    assert!(state.settle(&mut kitchen, CommitLimit::Unlimited).is_ok());
    let settled = state.snapshot();
    assert_eq!(sums(&state, settled), set_of(vec![1, 2]));
}

#[test]
fn the_last_settled_rows_are_read_while_inputs_wait() {
    let mut bowl = Recipe::new().system(derive_sum(), run_derive_sum).build();
    insert(&mut bowl, (Count::<3>(1),));
    assert_eq!(set_of(values::<Sum>(&mut bowl)), set_of(vec![1]));

    insert(&mut bowl, (Count::<3>(2),));
    let stale = bowl.last_settled::<(Entity, &Sum), ()>(&no_args(), None).unwrap();
    assert_eq!(set_of(numbers::<Sum>(&bowl, &stale)), set_of(vec![1]));

    assert_eq!(set_of(values::<Sum>(&mut bowl)), set_of(vec![1, 2]));
}

#[test]
fn external_mut_succeeds_while_structural_snapshot_is_alive() {
    let mut bowl = Recipe::new().build();
    insert(&mut bowl, (Count::<12>(1),));

    let snapshot = scoop::<(Entity, &Rank)>(&mut bowl);
    let handle = bowl.scoop_mut::<Rank, ()>(&no_args(), None).unwrap().pop().unwrap();

    let written = bowl.with_latest(&handle, |_, _: &Fact| (Count::<12>(2).erase(), ()));
    assert_eq!(written, Some(()));
    assert_eq!(numbers::<Rank>(&bowl, &snapshot)[0], 2);

    let latest = scoop::<(Entity, &Rank)>(&mut bowl);
    assert_eq!(numbers::<Rank>(&bowl, &latest)[0], 2);
}

#[test]
fn a_held_result_keeps_what_was_replaced_or_removed() {
    let mut bowl = Recipe::new().build();
    let row = insert(&mut bowl, (Count::<12>(1),));
    let held = scoop::<(Entity, &Rank)>(&mut bowl);

    let outcome = bowl.for_each::<(Entity, bowl::query::Cow<Rank>), (), _>(
        &no_args(),
        None,
        |_, _: &Fact| Count::<12>(2).erase(),
    );
    assert!(outcome.is_ok());
    assert_eq!(numbers::<Rank>(&bowl, &held)[0], 1, "a changed copy leaves the result alone");
    assert_eq!(values::<Rank>(&mut bowl), vec![2]);

    let copied = scoop::<(Entity, &Rank)>(&mut bowl);
    insert_on(&mut bowl, row, (Count::<12>(3),));
    assert_eq!(values::<Rank>(&mut bowl), vec![3]);
    assert_eq!(numbers::<Rank>(&bowl, &copied)[0], 2, "an insert leaves the result alone");

    let inserted = scoop::<(Entity, &Rank)>(&mut bowl);
    let handle = bowl.scoop_mut::<Rank, ()>(&no_args(), None).unwrap().pop().unwrap();
    bowl.with_latest(&handle, |_, _: &Fact| (Count::<12>(4).erase(), ()));
    bowl.remove::<Rank>(row);
    assert_eq!(values::<Rank>(&mut bowl), Vec::<u64>::new());
    assert_eq!(numbers::<Rank>(&bowl, &inserted)[0], 4, "a removal leaves the result alone");
    assert_eq!(numbers::<Rank>(&bowl, &copied)[0], 2);
}

#[test]
fn a_held_result_reads_what_a_system_wrote_in_place() {
    let mut bowl = Recipe::new()
        .system(
            function(
                "raise",
                vec![exclusive(kind::<Rank>(), vec![RowFilter::With(kind::<Mark>())])],
            ),
            |step| {
                let row = step.row(0);
                step.write::<Rank>(row, Count(9));
            },
        )
        .build();
    let row = insert(&mut bowl, (Count::<12>(1),));
    let held = scoop::<(Entity, &Rank)>(&mut bowl);
    assert_eq!(numbers::<Rank>(&bowl, &held)[0], 1);

    insert_on(&mut bowl, row, (Count::<9>(0),));
    assert_eq!(values::<Rank>(&mut bowl), vec![9]);
    assert_eq!(numbers::<Rank>(&bowl, &held)[0], 9);
}

#[test]
fn changed_since_reads_only_rows_past_the_cursor() {
    let mut bowl = Recipe::new().build();
    let first = insert(&mut bowl, (Count::<10>(1),));
    insert(&mut bowl, (Count::<10>(2),));
    how_many::<MutableA>(&mut bowl);

    let cursor = bowl.settled_revision();

    let handles = bowl.scoop_mut::<MutableA, ()>(&no_args(), None).unwrap();
    let handle = handles.iter().find(|handle| handle.entity.raw() == first.raw()).unwrap();
    bowl.with_latest(handle, |_, _: &Fact| (Count::<10>(9).erase(), ()));

    let delta = bowl.changed_since::<(Entity, &MutableA), ()>(&no_args(), None, cursor).unwrap();
    assert_eq!(delta.len(), 1, "only the mutated row is past the cursor");
    assert_eq!(numbers::<MutableA>(&bowl, &delta)[0], 9);

    let cursor = bowl.settled_revision();
    let delta = bowl.changed_since::<(Entity, &MutableA), ()>(&no_args(), None, cursor).unwrap();
    assert_eq!(delta.len(), 0);
}

#[test]
fn entity_insert_targets_an_existing_entity() {
    let mut bowl = Recipe::new().build();
    let inserted = insert(&mut bowl, (Count::<0>(7),));
    insert_on(&mut bowl, inserted, (Count::<9>(0),));

    let rows = answer(bowl.scoop::<(Entity, &A), With<Mark>>(&no_args(), None)).len();
    assert_eq!(rows, 1);
}

#[test]
fn drain_consumes_matched_rows() {
    let mut bowl = Recipe::new().build();
    insert(&mut bowl, (Count::<2>(1), Count::<9>(0)));
    insert(&mut bowl, (Count::<2>(2), Count::<9>(0)));
    insert(&mut bowl, (Count::<2>(3),));

    let drained = answer(bowl.drain::<(Entity, &C), With<Mark>>(&no_args(), None));
    assert_eq!(set_of(numbers::<C>(&bowl, &drained)), set_of(vec![1, 2]));

    assert_eq!(answer(bowl.scoop::<(Entity, &C), With<Mark>>(&no_args(), None)).len(), 0);
    assert_eq!(how_many::<C>(&mut bowl), 1);
}

#[test]
fn next_settle_fires_after_working_settles() {
    let mut bowl = Recipe::new().system(make_b(), run_make_b).build();

    let ticket: Ticket = 7;
    bowl.next_settle(ticket);
    assert_eq!(bowl.settle().unwrap().len(), 0);

    insert(&mut bowl, (Count::<0>(1),));
    let woken = bowl.settle().unwrap();
    assert_eq!(woken, vec![7]);
    assert!(bowl.settled_revision() > 0);
}

#[test]
fn a_read_that_settles_wakes_watchers_too() {
    let mut bowl = Recipe::new().system(make_b(), run_make_b).build();
    bowl.next_settle(3);
    assert_eq!(how_many::<B>(&mut bowl), 0);
    assert!(bowl.take_woken().is_empty(), "nothing was settled");

    insert(&mut bowl, (Count::<0>(1),));
    assert_eq!(how_many::<B>(&mut bowl), 1);
    assert_eq!(bowl.take_woken(), vec![3]);
    assert!(bowl.take_woken().is_empty());
}

#[test]
fn take_waits_for_pinning_query_results_to_release() {
    let mut bowl = Recipe::new().system(answer_request(), run_answer_request).build();

    let request = ask(&mut bowl);
    let pinned = scoop::<(Entity, &Answer)>(&mut bowl);
    assert_eq!(pinned.len(), 1);

    assert_eq!(take_number::<Answer>(&mut bowl, request), 42);
    assert_eq!(numbers::<Answer>(&bowl, &pinned), vec![42]);
}

#[test]
fn dropped_bound_entity_is_cleaned_up_on_next_operation() {
    let mut bowl = Recipe::new().system(answer_request(), run_answer_request).build();

    let request = ask(&mut bowl);
    bowl.close(request);

    assert_eq!(how_many::<Answer>(&mut bowl), 0);
    assert_eq!(how_many::<Request>(&mut bowl), 0);
}

fn join_pairs() -> FunctionSystem {
    function(
        "join_pairs",
        vec![
            query(&[kind::<A>(), kind::<Key>()]),
            filtered(&[kind::<B>()], vec![RowFilter::Bound(kind::<Key>())]),
            anything(),
        ],
    )
}

fn run_join_pairs(step: &mut Step) {
    let (namespace, member) = (step.row(0), step.row(1));
    let sum = step.num::<A>(namespace) * 100 + step.num::<B>(member);
    step.spawn(vec![derived(&[namespace, member]), count_fact(Count::<5>(sum))]);
}

#[test]
fn bound_eq_join_runs_only_matching_pairs() {
    let runs = counter();
    let seen = runs.clone();
    let mut bowl = Recipe::new()
        .system(join_pairs(), move |step| {
            bump(&seen);
            run_join_pairs(step);
        })
        .build();

    insert(&mut bowl, (Count::<0>(1), rank(1)));
    insert(&mut bowl, (Count::<0>(2), rank(2)));
    insert(&mut bowl, (Count::<1>(10), rank(1)));
    insert(&mut bowl, (Count::<1>(20), rank(1)));
    insert(&mut bowl, (Count::<1>(30), rank(2), Count::<9>(0)));

    assert_eq!(
        set_of(values::<Sum>(&mut bowl)),
        set_of(vec![110, 120, 230]),
        "only key-matching pairs should run"
    );
    assert_eq!(runs.get(), 3);

    values::<Sum>(&mut bowl);
    assert_eq!(runs.get(), 3);

    insert(&mut bowl, (Count::<1>(40), rank(1)));
    assert_eq!(set_of(values::<Sum>(&mut bowl)), set_of(vec![110, 120, 230, 140]));
    assert_eq!(runs.get(), 4);

    for handle in bowl.scoop_mut::<B, With<Mark>>(&no_args(), None).unwrap() {
        bowl.with_latest(&handle, |_, _: &Fact| (Count::<1>(31).erase(), ()));
    }
    assert_eq!(set_of(values::<Sum>(&mut bowl)), set_of(vec![110, 120, 231, 140]));
    assert_eq!(runs.get(), 5);
}

#[test]
fn bound_eq_join_key_change_moves_the_pair() {
    let mut bowl = Recipe::new()
        .system(join_pairs(), run_join_pairs)
        .system(cleanup_stale().run_during(Phase::Settle), run_cleanup_stale)
        .build();

    insert(&mut bowl, (Count::<0>(1), rank(1)));
    insert(&mut bowl, (Count::<0>(2), rank(2)));
    insert(&mut bowl, (Count::<1>(10), rank(1)));

    assert_eq!(set_of(values::<Sum>(&mut bowl)), set_of(vec![110]));

    for handle in bowl.scoop_mut::<Key, With<B>>(&no_args(), None).unwrap() {
        bowl.with_latest(&handle, |_, _: &Fact| (rank(2).erase(), ()));
    }

    assert_eq!(set_of(values::<Sum>(&mut bowl)), set_of(vec![210]));
}

#[test]
fn bound_eq_join_allows_bound_query_reading_its_own_key() {
    let mut bowl = Recipe::new()
        .system(
            function(
                "self_keyed_join",
                vec![
                    query(&[kind::<A>(), kind::<Key>()]),
                    filtered(&[kind::<B>(), kind::<Key>()], vec![RowFilter::Bound(kind::<Key>())]),
                    anything(),
                ],
            ),
            |step| {
                let (namespace, member) = (step.row(0), step.row(1));
                let sum = step.num::<A>(namespace) * 1000
                    + step.num::<B>(member) * 10
                    + step.text::<Key>(member)[0] as u64;
                step.spawn(vec![derived(&[namespace, member]), count_fact(Count::<5>(sum))]);
            },
        )
        .build();

    insert(&mut bowl, (Count::<0>(1), rank(1)));
    insert(&mut bowl, (Count::<1>(2), rank(1)));
    insert(&mut bowl, (Count::<1>(3), rank(9)));

    assert_eq!(set_of(values::<Sum>(&mut bowl)), set_of(vec![1021]));
}

#[test]
fn compound_bound_join_requires_every_key_to_match() {
    let mut bowl = Recipe::new()
        .system(
            function(
                "compound_key_join",
                vec![
                    query(&[kind::<A>(), kind::<Key>(), kind::<KeyB>()]),
                    filtered(
                        &[kind::<B>()],
                        vec![RowFilter::Bound(kind::<Key>()), RowFilter::Bound(kind::<KeyB>())],
                    ),
                    anything(),
                ],
            ),
            run_join_pairs,
        )
        .build();

    insert(&mut bowl, (Count::<0>(1), rank(1), key_b(1)));
    insert(&mut bowl, (Count::<0>(2), rank(1), key_b(2)));
    insert(&mut bowl, (Count::<1>(10), rank(1), key_b(1)));
    insert(&mut bowl, (Count::<1>(20), rank(1), key_b(2)));
    insert(&mut bowl, (Count::<1>(30), rank(2), key_b(1)));

    assert_eq!(
        set_of(values::<Sum>(&mut bowl)),
        set_of(vec![110, 220]),
        "rows matching only one of two keys must not pair"
    );
}

#[test]
fn and_composes_plain_filters() {
    let mut bowl = Recipe::new()
        .system(
            function(
                "and_filtered_derive",
                vec![
                    filtered(
                        &[kind::<A>()],
                        vec![RowFilter::With(kind::<Mark>()), RowFilter::Without(kind::<C>())],
                    ),
                    anything(),
                ],
            ),
            |step| {
                let row = step.row(0);
                let value = step.num::<A>(row);
                step.spawn(vec![derived(&[row]), count_fact(Count::<5>(value))]);
            },
        )
        .build();

    insert(&mut bowl, (Count::<0>(1), Count::<9>(0)));
    insert(&mut bowl, (Count::<0>(2), Count::<9>(0), Count::<2>(0)));
    insert(&mut bowl, (Count::<0>(3),));

    assert_eq!(set_of(values::<Sum>(&mut bowl)), set_of(vec![1]));
}

#[test]
#[should_panic(expected = "needs exactly one sibling query param")]
fn bound_eq_without_provider_panics_at_registration() {
    let _bowl = Recipe::new()
        .system(
            function(
                "missing_provider_join",
                vec![
                    filtered(&[kind::<B>()], vec![RowFilter::Bound(kind::<Key>())]),
                    anything(),
                ],
            ),
            |_| {},
        )
        .build();
}

#[test]
#[should_panic(expected = "needs exactly one sibling query param")]
fn bound_eq_with_ambiguous_providers_panics_at_registration() {
    let _bowl = Recipe::new()
        .system(
            function(
                "ambiguous_provider_join",
                vec![
                    query(&[kind::<A>(), kind::<Key>()]),
                    query(&[kind::<C>(), kind::<Key>()]),
                    filtered(&[kind::<B>()], vec![RowFilter::Bound(kind::<Key>())]),
                ],
            ),
            |_| {},
        )
        .build();
}

#[test]
#[should_panic(expected = "does not support bound")]
fn bound_eq_on_view_panics_at_registration() {
    let _bowl = Recipe::new()
        .system(
            function(
                "view_bound_join",
                vec![
                    query(&[kind::<A>(), kind::<Key>()]),
                    Param::View(rows_of(&[kind::<B>()], vec![RowFilter::Bound(kind::<Key>())])),
                ],
            ),
            |_| {},
        )
        .build();
}

#[test]
fn derived_fact_survives_upstream_rerun_with_unchanged_content() {
    let mut bowl = Recipe::new()
        .system(
            function("derive_ranked_from_a", vec![query(&[kind::<A>()]), anything()]),
            |step| {
                let source = step.row(0);
                step.spawn(vec![derived(&[source]), count_fact(rank(5))]);
            },
        )
        .system(
            function("derive_sum_from_ranked", vec![query(&[kind::<Key>()]), anything()]),
            |step| {
                let ranked = step.row(0);
                let value = step.text::<Key>(ranked)[0] as u64 + 1;
                step.spawn(vec![derived(&[ranked]), count_fact(Count::<5>(value))]);
            },
        )
        .system(cleanup_stale().run_during(Phase::Settle), run_cleanup_stale)
        .build();

    insert(&mut bowl, (Count::<0>(1),));
    assert_eq!(set_of(values::<Sum>(&mut bowl)), set_of(vec![6]));

    for handle in bowl.scoop_mut::<A, ()>(&no_args(), None).unwrap() {
        bowl.with_latest(&handle, |_, _: &Fact| (Count::<0>(2).erase(), ()));
    }

    assert_eq!(set_of(values::<Sum>(&mut bowl)), set_of(vec![6]));
}

#[test]
#[should_panic(expected = "component(hash)")]
fn bound_eq_join_requires_hashed_key() {
    let mut bowl = Recipe::new()
        .system(
            function(
                "unhashed_key_join",
                vec![
                    query(&[kind::<Label>()]),
                    filtered(&[kind::<B>()], vec![RowFilter::Bound(kind::<Label>())]),
                ],
            ),
            |_| {},
        )
        .build();

    insert(&mut bowl, (Count::<11>(MAIN),));
    insert(&mut bowl, (Count::<1>(1), Count::<11>(MAIN)));

    match bowl.scoop::<(Entity, &B), ()>(&no_args(), None) {
        Err(ScoopError::Unsettled(EngineError::Join(error))) => {
            panic!("{}", error.message())
        }
        _ => {}
    }
}

#[test]
fn cancelled_evaluation_driver_does_not_wedge_the_bowl() {
    let (mut state, mut kitchen) = Recipe::new().system(make_b(), run_make_b).parts();
    assert!(state.insert(vec![Count::<0>(1).erase()], false, None).is_ok());

    let evaluation = match state.start_evaluation() {
        Some(Ok(evaluation)) => evaluation,
        _ => panic!("an input is pending"),
    };
    assert!(!state.is_settled());
    state.abandon_evaluation(evaluation.generation, evaluation.memo);

    assert!(state.settle(&mut kitchen, CommitLimit::Unlimited).is_ok());
    assert_eq!(state.snapshot().entities_with(kind::<B>()).len(), 1);
}

#[test]
fn external_insert_mid_epoch_defers_to_the_next_epoch() {
    let runs = counter();
    let seen = runs.clone();
    let (mut state, mut kitchen) = Recipe::new()
        .system(make_b(), move |step| {
            bump(&seen);
            run_make_b(step);
        })
        .parts();
    assert!(state.insert(vec![Count::<0>(1).erase()], false, None).is_ok());

    let watermark = state.enter_epoch();
    assert!(state.insert(vec![Count::<0>(2).erase()], false, None).is_ok());
    let mut budget = CommitBudget::new(CommitLimit::Unlimited);
    while state.run_generation(&mut kitchen, &mut budget).unwrap() {}
    assert_eq!(runs.get(), 1, "a mid-epoch insert must not be drained into the running epoch");
    assert_eq!(
        state.snapshot().entities_with(kind::<B>()).len(),
        1,
        "the in-flight epoch must complete on its frozen input set"
    );
    assert!(!state.promote_deferred_inputs(watermark));
    state.leave_epoch();

    assert!(state.settle(&mut kitchen, CommitLimit::Unlimited).is_ok());
    assert_eq!(
        state.snapshot().entities_with(kind::<B>()).len(),
        2,
        "the deferred input must run in the next epoch"
    );
    assert_eq!(runs.get(), 2);
}

fn publish_ready(step: &mut Step) {
    step.spawn(vec![
        count_fact(Unique::<1>(0)),
        count_fact(Note::<1>(0)),
        count_fact(Note::<2>(0)),
    ]);
}

#[test]
fn gated_consumers_never_observe_mid_derivation_state() {
    let answers: Rc<RefCell<Vec<(Vec<u8>, bool)>>> = Rc::new(RefCell::new(Vec::new()));
    let log = answers.clone();
    let (mut state, mut kitchen) = Recipe::new()
        .system(
            function("epoch_derive", vec![query(&[kind::<Src>()]), anything()])
                .on_settled::<Callback, Anything>(callback(publish_ready)),
            |step| {
                let row = step.row(0);
                let text = step.text::<Src>(row);
                step.spawn(vec![derived(&[row]), count_fact(Text::<3>(text))]);
            },
        )
        .system(
            function(
                "lie_consume",
                vec![
                    filtered(&[], vec![RowFilter::With(kind::<Ready>())]),
                    query(&[kind::<Ask>()]),
                    view(&[kind::<Def>()]),
                ],
            ),
            move |step| {
                let asked = step.text::<Ask>(step.row(1));
                let found = step.all::<Def>().iter().any(|def| step.text::<Def>(*def) == asked);
                log.borrow_mut().push((asked, found));
            },
        )
        .system(
            function(
                "cleanup_epoch_ephemeral",
                vec![filtered(&[], vec![RowFilter::With(kind::<Passing>())]), anything()],
            )
            .run_during(Phase::Settle),
            run_remove,
        )
        .parts();
    assert!(state.insert(vec![Text::<2>(b"beta".to_vec()).erase()], false, None).is_ok());
    assert!(state.insert(vec![Text::<4>(b"beta".to_vec()).erase()], false, None).is_ok());

    state.enter_epoch();
    assert!(state.insert(vec![Text::<2>(b"gamma".to_vec()).erase()], false, None).is_ok());
    assert!(state.insert(vec![Text::<4>(b"gamma".to_vec()).erase()], false, None).is_ok());
    assert!(state.settle(&mut kitchen, CommitLimit::Unlimited).is_ok());
    state.leave_epoch();
    assert!(state.settle(&mut kitchen, CommitLimit::Unlimited).is_ok());

    let answers = answers.borrow();
    assert!(
        answers.iter().any(|(asked, _)| asked == b"gamma"),
        "the deferred question must eventually be answered: {answers:?}"
    );
    assert!(
        answers.iter().all(|(_, found)| *found),
        "every computed answer must reflect settled derivations: {answers:?}"
    );
}

#[test]
fn a_preempting_input_waits_for_a_boundary() {
    let (mut state, mut kitchen) = Recipe::new().system(make_b(), run_make_b).parts();
    assert!(state.insert(vec![Count::<3>(5).erase()], false, None).is_ok());
    let watermark = state.enter_epoch();
    let evaluation = match state.start_evaluation() {
        Some(Ok(evaluation)) => evaluation,
        _ => panic!("an input is pending"),
    };

    let inputs = match state.insert(vec![Count::<0>(9).erase()], true, None) {
        Ok(Inserted::Boundary { inputs, .. }) => inputs,
        _ => panic!("the bowl is running"),
    };
    let mut waiter = PreemptWaiter::new(false);
    assert!(!state.boundary_reached(&mut waiter));
    assert!(state.preemption_requested());

    let driver = PhaseDriver::new(true);
    assert_eq!(driver.next_step(state.preemption_requested()), DriverStep::Preempt);
    state.open_preempt_window();
    assert!(state.boundary_reached(&mut waiter));
    state.queue_inputs(inputs);
    state.finish_waiter(&mut waiter);
    assert!(!state.preemption_requested());
    assert!(state.close_preempt_window());

    state.finish_evaluation(evaluation.generation, evaluation.memo, true);
    let mut budget = CommitBudget::new(CommitLimit::Unlimited);
    while state.run_generation(&mut kitchen, &mut budget).unwrap() {}
    assert_eq!(
        state.snapshot().entities_with(kind::<B>()).len(),
        1,
        "the preempting insert must be processed within this epoch"
    );
    assert!(!state.promote_deferred_inputs(watermark));
    state.leave_epoch();
}

#[test]
fn a_deferring_mutator_does_not_ask_for_a_boundary() {
    let (mut state, _) = Recipe::new().parts();
    assert!(state.insert(vec![Count::<3>(5).erase()], false, None).is_ok());
    state.enter_epoch();
    let evaluation = match state.start_evaluation() {
        Some(Ok(evaluation)) => evaluation,
        _ => panic!("an input is pending"),
    };
    let entity = state.snapshot().entities_with(kind::<D>())[0];

    let mut waiter = PreemptWaiter::new(true);
    let step = state.mutation_step(&mut waiter, kind::<D>(), entity, None);
    assert_eq!(step, MutationStep::Wait);
    assert!(!state.preemption_requested());

    let mut urgent = PreemptWaiter::new(false);
    let step = state.mutation_step(&mut urgent, kind::<D>(), entity, None);
    assert_eq!(step, MutationStep::Wait);
    assert!(state.preemption_requested());
    let step = state.mutation_step(&mut urgent, kind::<D>(), entity, Some(None));
    assert_eq!(step, MutationStep::Moved);
    assert!(!state.preemption_requested());

    state.finish_evaluation(evaluation.generation, evaluation.memo, false);
    let step = state.mutation_step(&mut waiter, kind::<D>(), entity, None);
    assert_eq!(step, MutationStep::Ready);
    assert_eq!(state.apply_component_mutation(entity, Count::<3>(6).erase()), Some(true));
    assert_eq!(state.apply_component_mutation(entity, Count::<0>(6).erase()), None);
}

fn owner(system: usize, row: Entity) -> SystemInvocation {
    SystemInvocation::new(SystemId(system), vec![row])
}

#[test]
fn scheduler_allows_multiple_readers_of_same_row() {
    let row = Entity::from_raw(1);
    let reads = vec![Access { kind: AccessKind::Read, component: kind::<Rank>(), entity: Some(row) }];
    let mut driver = PhaseDriver::new(true);
    assert_eq!(driver.take_up(&owner(0, row), &reads), Admission::Reader);
    assert_eq!(driver.take_up(&owner(1, row), &reads), Admission::Reader);
    assert_eq!(driver.take_up(&owner(1, row), &reads), Admission::Duplicate);
    driver.finish(&owner(0, row));
    driver.finish(&owner(1, row));
    assert!(driver.idle());
}

#[test]
fn scheduler_serializes_read_write_access_to_same_row() {
    let row = Entity::from_raw(1);
    let reads = vec![Access { kind: AccessKind::Read, component: kind::<Rank>(), entity: Some(row) }];
    let writes = vec![Access { kind: AccessKind::Write, component: kind::<Rank>(), entity: Some(row) }];
    let mut driver = PhaseDriver::new(true);
    assert_eq!(driver.take_up(&owner(0, row), &reads), Admission::Reader);
    assert_eq!(driver.take_up(&owner(1, row), &writes), Admission::Deferred);
    driver.finish(&owner(0, row));
    assert_eq!(driver.take_up(&owner(1, row), &writes), Admission::Writer);
    assert_eq!(driver.take_up(&owner(0, row), &reads), Admission::Deferred);
    driver.finish(&owner(1, row));
    assert!(driver.idle());
}

#[test]
fn scheduler_allows_writes_to_different_rows() {
    let (one, two) = (Entity::from_raw(1), Entity::from_raw(2));
    let mut driver = PhaseDriver::new(true);
    for row in [one, two] {
        let writes =
            vec![Access { kind: AccessKind::Write, component: kind::<Rank>(), entity: Some(row) }];
        assert_eq!(driver.take_up(&owner(0, row), &writes), Admission::Writer);
    }
    driver.drop_readers();
    assert!(!driver.idle());
    driver.finish(&owner(0, one));
    driver.finish(&owner(0, two));
    assert!(driver.idle());
}

#[test]
fn derived_facts_emitted_before_same_buffer_anchor_writes_survive_cleanup() {
    let mut bowl = Recipe::new()
        .system(
            function("diagnose_then_stamp", vec![query(&[kind::<A>()]), anything()]),
            |step| {
                let file = step.row(0);
                step.spawn(vec![count_fact(Count::<9>(0)), derived(&[file])]);
                step.put::<B>(file, Count(1));
            },
        )
        .system(cleanup_stale().run_during(Phase::Settle), run_cleanup_stale)
        .build();

    insert(&mut bowl, (Count::<0>(1),));

    assert_eq!(
        how_many::<Mark>(&mut bowl),
        1,
        "the diagnostic was born stale and silently reaped"
    );
}

#[test]
fn external_remove_retracts_a_component() {
    let mut bowl = Recipe::new().build();
    let inserted = insert(&mut bowl, (Count::<0>(1), Count::<1>(2)));

    bowl.remove::<B>(inserted);

    assert_eq!(how_many::<B>(&mut bowl), 0, "the retracted component must be gone");
    assert_eq!(how_many::<A>(&mut bowl), 1, "siblings must survive the removal");
}

#[test]
fn spawned_entities_link_by_id_within_one_buffer() {
    let mut bowl = Recipe::new()
        .system(function("lower_linked_pair", vec![query(&[kind::<A>()]), anything()]), |step| {
            let parent = step.spawn(vec![count_fact(Count::<1>(7))]);
            step.spawn(vec![count_fact(Count::<2>(1)), count_fact(Count::<15>(parent.raw()))]);
        })
        .build();

    insert(&mut bowl, (Count::<0>(1),));

    let links = values::<ParentLink>(&mut bowl);
    assert_eq!(links.len(), 1);
    let parents = scoop::<(Entity, &B)>(&mut bowl);
    assert_eq!(parents.len(), 1);
    assert_eq!(
        parents.rows()[0].raw(),
        links[0],
        "the link must resolve to the spawned parent entity"
    );
}

#[test]
fn explain_surfaces_stale_ambient_views() {
    let mut bowl = Recipe::new().system(count_bs(), run_count_bs).build();

    insert(&mut bowl, (Count::<0>(1),));
    insert(&mut bowl, (Count::<1>(1),));
    assert_eq!(values::<Tally>(&mut bowl)[0], 1);
    let report = bowl.explain("count_bs").unwrap();
    assert_eq!(report.stale_views, 0, "the system just ran against current views");

    insert(&mut bowl, (Count::<1>(2),));
    assert_eq!(values::<Tally>(&mut bowl)[0], 1);

    let report = bowl.explain("count_bs").unwrap();
    assert_eq!(report.memoized_rows, 1);
    assert_eq!(report.stale_views, 1, "one viewed store changed since the system's last run");
}

fn expect_race(bowl: &mut Bowl<Fact, Kitchen>) {
    match bowl.scoop::<(Entity, &Tally), ()>(&no_args(), None) {
        Err(ScoopError::Unsettled(EngineError::Commit(CommitError::Race { component, phase, .. }))) => {
            panic!("{}", race_message::<Fact>(component, phase))
        }
        _ => {}
    }
}

#[test]
#[should_panic(expected = "consumed in the same phase")]
fn same_phase_ambient_consumption_is_flagged() {
    let mut bowl = Recipe::new()
        .system(
            function("produce_in_cleanup", vec![query(&[kind::<A>()]), anything()])
                .run_during(Phase::Complete),
            |step| {
                step.spawn(vec![count_fact(Count::<2>(9))]);
            },
        )
        .system(
            function(
                "finalize_in_cleanup",
                vec![query(&[kind::<B>()]), view(&[kind::<C>()]), anything()],
            )
            .run_during(Phase::Complete),
            |step| {
                let row = step.row(0);
                let found = step.all::<C>().len() as u64;
                step.put::<Tally>(row, Count(found));
            },
        )
        .build();

    insert(&mut bowl, (Count::<0>(1),));
    insert(&mut bowl, (Count::<1>(1),));
    expect_race(&mut bowl);
}

type MarkParts = (Mark, Tally);

fn typed<S>(step: &mut Step, f: impl FnOnce(&mut Commands<Fact, S>, &mut EntityAllocator)) {
    let buffer = std::mem::replace(step.commands, Commands::new(Vec::new()));
    let mut typed = buffer.retype::<S>();
    f(&mut typed, step.allocator);
    *step.commands = typed.retype::<Anything>();
}

#[test]
fn declared_outputs_permit_declared_writes() {
    let mut bowl = Recipe::new()
        .system(
            function(
                "declared_writer",
                vec![
                    query(&[kind::<A>()]),
                    declares(&[kind::<Mark>(), kind::<Tally>(), kind::<B>()]),
                ],
            ),
            |step| {
                let row = step.row(0);
                typed::<(MarkParts, B)>(step, |commands, allocator| {
                    let mark: Entity<MarkParts> =
                        commands.insert((Count::<9>(0), Count::<4>(7)), allocator);
                    commands.entity(mark.untyped()).insert(Count::<4>(7));
                    commands.entity(row).insert(Count::<1>(2));
                });
            },
        )
        .build();
    insert(&mut bowl, (Count::<0>(1),));

    assert_eq!(how_many::<Mark>(&mut bowl), 1);
    assert_eq!(values::<Tally>(&mut bowl)[0], 7);
}

type OptionalShape = (Mark, Option<Tally>);

#[test]
fn strict_spawns_match_shapes_with_and_without_optionals() {
    let mut bowl = Recipe::new()
        .system(
            function(
                "spawn_with_and_without_optional",
                vec![query(&[kind::<A>()]), declares(&[kind::<Mark>(), kind::<Tally>()])],
            ),
            |step| {
                typed::<(OptionalShape,)>(step, |commands, allocator| {
                    let bare: Entity<OptionalShape> = commands.insert((Count::<9>(0),), allocator);
                    let full: Entity<OptionalShape> =
                        commands.insert((Count::<9>(0), Count::<4>(3)), allocator);
                    assert!(!bare.same(full));
                    assert!(bare.same(bare.untyped()));
                    commands.entity(full).insert(Count::<4>(3));
                });
            },
        )
        .build();
    insert(&mut bowl, (Count::<0>(1),));

    assert_eq!(how_many::<Mark>(&mut bowl), 2);
    assert_eq!(how_many::<Tally>(&mut bowl), 1);
}

struct OverlappingSchema;

fn shape_part<T: ComponentType<Universe = Fact>>(name: &'static str) -> ShapePartDesc {
    ShapePartDesc { component: kind::<T>(), name }
}

impl Schema for OverlappingSchema {
    fn shapes() -> Vec<ShapeDesc> {
        vec![
            ShapeDesc {
                name: "wide",
                required: vec![
                    shape_part::<Mark>("Mark"),
                    shape_part::<Tally>("Tally"),
                    shape_part::<B>("B"),
                ],
                optional: Vec::new(),
            },
            ShapeDesc {
                name: "narrow",
                required: vec![shape_part::<Mark>("Mark"), shape_part::<Tally>("Tally")],
                optional: Vec::new(),
            },
        ]
    }
}

fn spawn_narrow(bundle: fn() -> Vec<Fact>) -> Bowl<Fact, Kitchen> {
    let mut recipe = Recipe::new();
    recipe.builder = recipe.builder.schema::<OverlappingSchema>();
    recipe
        .system(
            function(
                "spawn_narrow",
                vec![query(&[kind::<A>()]), declares(&[kind::<Mark>(), kind::<Tally>()])],
            ),
            move |step| {
                step.spawn(bundle());
            },
        )
        .build()
}

#[test]
fn conformance_accepts_any_passing_candidate_among_overlapping_shapes() {
    let mut bowl =
        spawn_narrow(|| vec![count_fact(Count::<9>(0)), count_fact(Count::<4>(1))]);
    insert(&mut bowl, (Count::<0>(1),));
    assert_eq!(how_many::<Mark>(&mut bowl), 1);
}

#[test]
fn conformance_refuses_a_bundle_that_fits_no_shape() {
    let mut bowl = spawn_narrow(|| vec![count_fact(Count::<9>(0))]);
    insert(&mut bowl, (Count::<0>(1),));
    match bowl.scoop::<(Entity, &Mark), ()>(&no_args(), None) {
        Err(ScoopError::Unsettled(EngineError::Commit(CommitError::Shape { entity, kinds, error }))) => {
            let text = error.message::<Fact>(&OverlappingSchema::shapes(), entity, &kinds, "spawn_narrow");
            assert!(text.contains("left required component(s) missing: "), "{text}");
        }
        _ => panic!("the mark alone fits no shape"),
    }

    let mut bowl = spawn_narrow(|| vec![count_fact(Count::<9>(0)), count_fact(Count::<3>(0))]);
    insert(&mut bowl, (Count::<0>(1),));
    match bowl.scoop::<(Entity, &Mark), ()>(&no_args(), None) {
        Err(ScoopError::Unsettled(EngineError::Commit(CommitError::Shape { entity, kinds, error }))) => {
            let text = error.message::<Fact>(&OverlappingSchema::shapes(), entity, &kinds, "spawn_narrow");
            assert!(text.contains("which matches no declared shape; nearest is `"), "{text}");
        }
        _ => panic!("no shape holds the other component"),
    }
}

#[test]
fn presence_masks_track_insert_and_removal_transitions() {
    let mut recipe = Recipe::new();
    recipe.builder = recipe.builder.schema::<OverlappingSchema>();
    let mut bowl = recipe.build();
    let inserted = insert(&mut bowl, (Count::<9>(0), Count::<4>(1)));

    assert_eq!(scoop::<(Entity, &Mark, &Tally)>(&mut bowl).len(), 1);

    bowl.remove::<Tally>(inserted);
    assert_eq!(
        scoop::<(Entity, &Mark, &Tally)>(&mut bowl).len(),
        0,
        "a removed component must clear its presence bit"
    );
    assert_eq!(how_many::<Mark>(&mut bowl), 1, "the other bit must survive");

    insert_on(&mut bowl, inserted, (Count::<4>(2),));
    assert_eq!(
        scoop::<(Entity, &Mark, &Tally)>(&mut bowl).len(),
        1,
        "re-insert must restore the bit"
    );
}

#[test]
fn delta_planning_matches_full_planning_run_counts() {
    let (first, second) = (counter(), counter());
    let (one, two) = (first.clone(), second.clone());
    let mut bowl = Recipe::new()
        .system(
            function("delta_stage1", vec![query(&[kind::<A>()]), declares(&[kind::<B>()])]),
            move |step| {
                bump(&one);
                run_make_b(step);
            },
        )
        .system(
            function("delta_stage2", vec![query(&[kind::<B>()]), declares(&[kind::<Tally>()])]),
            move |step| {
                bump(&two);
                let row = step.row(0);
                let value = step.num::<B>(row) + 1;
                step.put::<Tally>(row, Count(value));
            },
        )
        .build();

    let mut entities = Vec::new();
    for index in 0..10u64 {
        entities.push(insert(&mut bowl, (Count::<0>(index),)));
    }
    how_many::<Tally>(&mut bowl);
    assert_eq!(first.get(), 10);
    assert_eq!(second.get(), 10);

    insert_on(&mut bowl, entities[3], (Count::<0>(100),));
    assert_eq!(how_many::<Tally>(&mut bowl), 10);
    assert_eq!(first.get(), 11);
    assert_eq!(second.get(), 11);
    assert_eq!(
        value_on::<Tally>(&mut bowl, entities[3]),
        Some(102),
        "the touched row must re-derive through the chain"
    );

    how_many::<Tally>(&mut bowl);
    assert_eq!(first.get(), 11);
    assert_eq!(second.get(), 11);

    insert(&mut bowl, (Count::<0>(50),));
    assert_eq!(how_many::<Tally>(&mut bowl), 11);
    assert_eq!(first.get(), 12);
    assert_eq!(second.get(), 12);
}

#[test]
fn multi_driver_systems_stay_delta_planned() {
    let runs = counter();
    let seen = runs.clone();
    let mut bowl = Recipe::new()
        .system(
            function(
                "gated_stage",
                vec![
                    filtered(&[], vec![RowFilter::With(kind::<Mark>())]),
                    query(&[kind::<A>()]),
                    declares(&[kind::<B>()]),
                ],
            ),
            move |step| {
                bump(&seen);
                let row = step.row(1);
                let value = step.num::<A>(row);
                step.put::<B>(row, Count(value));
            },
        )
        .build();

    insert(&mut bowl, (Count::<9>(0),));
    let mut entities = Vec::new();
    for index in 0..10u64 {
        entities.push(insert(&mut bowl, (Count::<0>(index),)));
    }
    how_many::<B>(&mut bowl);
    assert_eq!(runs.get(), 10);

    insert_on(&mut bowl, entities[2], (Count::<0>(100),));
    how_many::<B>(&mut bowl);
    assert_eq!(runs.get(), 11, "a tiny gate must not force full replans");

    how_many::<B>(&mut bowl);
    assert_eq!(runs.get(), 11);
}

fn count_priced_ds() -> FunctionSystem {
    function(
        "count_priced_ds",
        vec![query(&[kind::<B>()]), view(&[kind::<D>(), kind::<Rank>()]), anything()],
    )
}

fn run_count_priced(step: &mut Step) {
    let row = step.row(0);
    let priced = step.all::<D>().into_iter().filter(|entity| step.has::<Rank>(*entity)).count();
    step.put::<Tally>(row, Count(priced as u64));
}

#[test]
fn same_phase_flag_ignores_rows_the_viewer_cannot_match() {
    let mut bowl = Recipe::new()
        .system(
            function("restock_oranges", vec![query(&[kind::<A>()]), anything()])
                .run_during(Phase::Complete),
            |step| {
                step.spawn(vec![count_fact(Count::<2>(1)), count_fact(Count::<12>(12))]);
            },
        )
        .system(count_priced_ds().run_during(Phase::Complete), run_count_priced)
        .build();

    insert(&mut bowl, (Count::<0>(1),));
    insert(&mut bowl, (Count::<1>(1),));

    assert_eq!(
        values::<Tally>(&mut bowl)[0],
        0,
        "oranges never appear in the (D, Rank) view"
    );
}

#[test]
#[should_panic(expected = "consumed in the same phase")]
fn same_phase_flag_catches_writes_completing_a_viewed_row() {
    let mut bowl = Recipe::new()
        .system(
            function(
                "sticker_d",
                vec![
                    filtered(&[kind::<Rank>()], vec![RowFilter::Without(kind::<D>())]),
                    anything(),
                ],
            )
            .run_during(Phase::Complete),
            |step| {
                let row = step.row(0);
                step.put::<D>(row, Count(1));
            },
        )
        .system(count_priced_ds().run_during(Phase::Complete), run_count_priced)
        .build();

    insert(&mut bowl, (Count::<12>(3),));
    insert(&mut bowl, (Count::<1>(1),));
    expect_race(&mut bowl);
}

#[test]
fn outer_joins_run_unmatched_rows_with_none() {
    let mut bowl = Recipe::new()
        .system(
            function(
                "resolve_or_default",
                vec![
                    filtered(&[kind::<Key>()], vec![RowFilter::With(kind::<Request>())]),
                    Param::Outer(rows_of(&[kind::<D>()], vec![RowFilter::Bound(kind::<Key>())])),
                    anything(),
                ],
            ),
            |step| {
                let request = step.row(0);
                let value = match step.partner(1) {
                    Some(partner) => step.num::<D>(partner),
                    None => 999,
                };
                step.put::<Tally>(request, Count(value));
            },
        )
        .build();

    let matched = insert(&mut bowl, (Count::<6>(0), rank(1)));
    let unmatched = insert(&mut bowl, (Count::<6>(0), rank(2)));
    let partner = insert(&mut bowl, (Count::<3>(42), rank(1)));

    assert_eq!(
        value_on::<Tally>(&mut bowl, matched),
        Some(42),
        "the matched pair must join as an inner join does"
    );
    assert_eq!(
        value_on::<Tally>(&mut bowl, unmatched),
        Some(999),
        "an unmatched provider row must run once with None"
    );

    insert(&mut bowl, (Count::<3>(7), rank(2)));
    assert_eq!(value_on::<Tally>(&mut bowl, unmatched), Some(7));

    bowl.remove::<D>(partner);
    assert_eq!(
        value_on::<Tally>(&mut bowl, matched),
        Some(999),
        "losing the partner must flap the row back to None"
    );
}

fn members_of(bowl: &mut Bowl<Fact, Kitchen>, target: Entity) -> Option<Vec<u64>> {
    let result = scoop::<(Entity, &Members)>(bowl);
    result.get::<_, Members>(bowl, target).map(members)
}

#[test]
fn relationships_maintain_an_ordered_fingerprinted_inverse() {
    let mut bowl = Recipe::new().build();
    let parent = insert(&mut bowl, (Count::<0>(0),));
    let parent2 = insert(&mut bowl, (Count::<0>(1),));
    let child_b = insert(&mut bowl, (Count::<1>(1), Link::<0>(parent)));
    let child_c = insert(&mut bowl, (Count::<2>(1), Link::<0>(parent)));

    assert_eq!(
        scoop::<(Entity, &Members)>(&mut bowl).len(),
        1,
        "the inverse must appear on the target"
    );
    assert_eq!(
        members_of(&mut bowl, parent),
        Some(vec![child_b.raw(), child_c.raw()]),
        "members are ordered by entity id"
    );

    insert_on(&mut bowl, child_c, (Link::<0>(parent2),));
    assert_eq!(members_of(&mut bowl, parent), Some(vec![child_b.raw()]));
    assert_eq!(members_of(&mut bowl, parent2), Some(vec![child_c.raw()]));

    bowl.remove::<MemberOf>(child_b);
    assert_eq!(
        members_of(&mut bowl, parent),
        None,
        "an emptied inverse is removed, keeping With<Members> meaningful"
    );
    assert_eq!(members_of(&mut bowl, parent2), Some(vec![child_c.raw()]));
}

#[test]
fn membership_changes_invalidate_tracked_consumers() {
    let runs = counter();
    let seen = runs.clone();
    let mut bowl = Recipe::new()
        .system(function("observe_members", vec![query(&[kind::<Members>()])]), move |_| bump(&seen))
        .build();

    let parent = insert(&mut bowl, (Count::<0>(0),));
    let child = insert(&mut bowl, (Count::<1>(1), Link::<0>(parent)));
    scoop::<(Entity, &Members)>(&mut bowl);
    assert_eq!(runs.get(), 1);

    insert_on(&mut bowl, child, (Link::<0>(parent),));
    scoop::<(Entity, &Members)>(&mut bowl);
    assert_eq!(runs.get(), 1, "an unchanged edge must not invalidate the inverse");

    insert(&mut bowl, (Count::<2>(1), Link::<0>(parent)));
    scoop::<(Entity, &Members)>(&mut bowl);
    assert_eq!(runs.get(), 2);
}

#[test]
fn removing_the_target_retracts_source_edges() {
    let mut bowl = Recipe::new()
        .system(
            function(
                "remove_noted",
                vec![filtered(&[], vec![RowFilter::With(kind::<Mark>())]), anything()],
            ),
            run_remove,
        )
        .build();

    let parent = insert(&mut bowl, (Count::<0>(0),));
    insert(&mut bowl, (Count::<1>(1), Link::<0>(parent)));
    assert_eq!(how_many::<MemberOf>(&mut bowl), 1);

    insert_on(&mut bowl, parent, (Count::<9>(0),));
    assert_eq!(
        how_many::<MemberOf>(&mut bowl),
        0,
        "sources must not keep dangling edges to a removed target"
    );
    assert_eq!(how_many::<B>(&mut bowl), 1);
}

fn member_pairs(name: &'static str) -> FunctionSystem {
    function(
        name,
        vec![
            query(&[kind::<A>(), kind::<Members>()]),
            filtered(&[kind::<B>()], vec![RowFilter::Member(kind::<Members>())]),
            anything(),
        ],
    )
}

#[test]
fn in_joins_pair_members_with_their_set() {
    let mut bowl = Recipe::new()
        .system(member_pairs("tag_members"), |step| {
            let member = step.row(1);
            step.put::<Mark>(member, Count(0));
        })
        .build();

    let parent = insert(&mut bowl, (Count::<0>(0),));
    insert(&mut bowl, (Count::<1>(1), Link::<0>(parent)));
    insert(&mut bowl, (Count::<1>(2), Link::<0>(parent)));
    let stray = insert(&mut bowl, (Count::<1>(3),));

    let noted = scoop::<(Entity, &Mark)>(&mut bowl);
    assert_eq!(noted.len(), 2, "only members pair with the set");
    assert!(!noted.rows().iter().any(|row| row.raw() == stray.raw()));

    insert_on(&mut bowl, stray, (Link::<0>(parent),));
    assert_eq!(how_many::<Mark>(&mut bowl), 3);
}

#[test]
fn member_value_changes_replan_hinted_pairs() {
    let mut bowl = Recipe::new()
        .system(member_pairs("stamp_member_value"), |step| {
            let member = step.row(1);
            let value = step.num::<B>(member);
            step.put::<Stamp>(member, Count(value));
        })
        .build();

    let parent_one = insert(&mut bowl, (Count::<0>(1),));
    let parent_two = insert(&mut bowl, (Count::<0>(2),));
    let member = insert(&mut bowl, (Count::<1>(10), Link::<0>(parent_one)));
    insert(&mut bowl, (Count::<1>(20), Link::<0>(parent_two)));

    let mut stamps = values::<Stamp>(&mut bowl);
    stamps.sort_unstable();
    assert_eq!(stamps, vec![10, 20]);

    for handle in bowl.scoop_mut::<B, ()>(&no_args(), None).unwrap() {
        if handle.entity.raw() == member.raw() {
            bowl.with_latest(&handle, |_, _: &Fact| (Count::<1>(11).erase(), ()));
        }
    }

    let mut stamps = values::<Stamp>(&mut bowl);
    stamps.sort_unstable();
    assert_eq!(
        stamps,
        vec![11, 20],
        "the changed member's pair must replan through the edge translation"
    );
}

#[test]
fn swept_derived_edges_retract_membership() {
    let mut bowl = Recipe::new()
        .system(
            function(
                "spawn_member_when_ranked",
                vec![query(&[kind::<ParentLink>(), kind::<Key>()]), anything()],
            ),
            |step| {
                let row = step.row(0);
                if step.text::<Key>(row)[0] == 1 {
                    let parent = Entity::from_raw(step.num::<ParentLink>(row));
                    step.spawn(vec![count_fact(Count::<1>(7)), count_fact(Link::<0>(parent))]);
                }
            },
        )
        .build();

    let parent = insert(&mut bowl, (Count::<0>(0),));
    let driver = insert(&mut bowl, (Count::<15>(parent.raw()), rank(1)));

    assert_eq!(
        scoop::<(Entity, &Members)>(&mut bowl).len(),
        1,
        "the derived edge must register"
    );

    insert_on(&mut bowl, driver, (rank(2),));
    assert_eq!(
        scoop::<(Entity, &Members)>(&mut bowl).len(),
        0,
        "a swept edge must retract its membership"
    );
}

#[test]
fn settle_phase_inserts_defer_to_the_next_run() {
    let mut bowl = Recipe::new()
        .system(
            function("settle_stamp", vec![query(&[kind::<A>()]), anything()])
                .run_during(Phase::Settle),
            |step| {
                step.spawn(vec![count_fact(Count::<9>(0))]);
            },
        )
        .build();

    insert(&mut bowl, (Count::<0>(1),));
    assert_eq!(
        how_many::<Mark>(&mut bowl),
        0,
        "a settle-phase insert must not land within its own settle"
    );

    insert(&mut bowl, (Count::<1>(1),));
    assert_eq!(how_many::<Mark>(&mut bowl), 1, "the deferred insert must open the next run");
}

#[test]
fn explain_reports_why_a_system_did_not_run() {
    let mut bowl = Recipe::new()
        .system(
            function(
                "demand_gated_check",
                vec![
                    query(&[kind::<A>()]),
                    filtered(&[], vec![RowFilter::With(kind::<Mark>())]),
                    anything(),
                ],
            ),
            |step| {
                let row = step.row(0);
                step.put::<Tally>(row, Count(1));
            },
        )
        .build();

    insert(&mut bowl, (Count::<0>(1),));
    how_many::<Tally>(&mut bowl);

    let report = bowl.explain("demand_gated_check").unwrap();
    assert!(report.registered);
    assert_eq!(report.phase, Some(Phase::Evaluate));
    assert_eq!(report.matched_rows, 0, "the demand join starves the tuple product");

    insert(&mut bowl, (Count::<9>(0),));
    how_many::<Tally>(&mut bowl);

    let report = bowl.explain("demand_gated_check").unwrap();
    assert_eq!(report.matched_rows, 1);
    assert_eq!(report.memoized_rows, 1, "the row ran and is now memo-current");
    assert!(!bowl.explain("nobody").unwrap().registered);
}

#[test]
fn remove_command_removes_entity_and_fires_lifecycle_hooks() {
    let mut world: World<Fact> = World::new();
    let entity = world.spawn_empty();
    assert!(world.insert_base(entity, Count::<0>(1).erase()).is_ok());
    let owner = SystemInvocation::new(SystemId(0), vec![entity]);
    let removal: CommandOp<Fact> = CommandOp::RemoveEntity { entity };
    assert!(removal.apply(&mut world, &owner).is_ok());

    assert!(!world.has(kind::<A>(), entity));
    assert_eq!(due(&world, Hook::Insert), 1);
    assert_eq!(due(&world, Hook::Remove), 1);
    assert_eq!(due(&world, Hook::EntityRemove), 1);
    world.run_hooks();
    assert_eq!(world.due_hooks().len(), 0);
}

#[test]
fn optional_parts_match_and_track_presence_and_absence() {
    let mut bowl = Recipe::new()
        .system(
            function(
                "count_optional_b",
                vec![filtered(&[kind::<A>()], vec![RowFilter::Maybe(kind::<B>())]), anything()],
            ),
            |step| {
                let row = step.row(0);
                let value = if step.has::<B>(row) { step.num::<B>(row) } else { 100 };
                step.put::<Tally>(row, Count(value));
            },
        )
        .build();

    let with_b = insert(&mut bowl, (Count::<0>(1), Count::<1>(7)));
    let without_b = insert(&mut bowl, (Count::<0>(2),));

    assert_eq!(how_many::<Tally>(&mut bowl), 2, "absent B must not exclude the row");
    assert_eq!(value_on::<Tally>(&mut bowl, with_b), Some(7));
    assert_eq!(value_on::<Tally>(&mut bowl, without_b), Some(100));

    insert_on(&mut bowl, without_b, (Count::<1>(9),));
    assert_eq!(
        value_on::<Tally>(&mut bowl, without_b),
        Some(9),
        "a component appearing must invalidate the observing row"
    );

    bowl.remove::<B>(with_b);
    assert_eq!(
        value_on::<Tally>(&mut bowl, with_b),
        Some(100),
        "a component disappearing must invalidate the observing row"
    );
}

type MarkShape = (Mark, Tally, Option<B>);

#[test]
fn facet_rows_match_required_sets_and_track_on_request() {
    let (anchor, tracking) = (counter(), counter());
    let (one, two) = (anchor.clone(), tracking.clone());
    let mut bowl = Recipe::new()
        .system(
            function("observe_facet", vec![Param::Query(facet_rows::<MarkShape>())]),
            move |_| bump(&one),
        )
        .system(
            function("observe_tracked_facet", vec![Param::Query(tracked_facet_rows::<MarkShape>())]),
            move |_| bump(&two),
        )
        .build();

    let full = insert(&mut bowl, (Count::<9>(0), Count::<4>(1), Count::<1>(1)));
    let plain = insert(&mut bowl, (Count::<9>(0), Count::<4>(2)));
    insert(&mut bowl, (Count::<9>(0),));

    how_many::<Mark>(&mut bowl);
    assert_eq!(
        bowl.explain("observe_facet").unwrap().matched_rows,
        2,
        "facet rows are entities with the whole required set"
    );
    assert_eq!(anchor.get(), 2);
    assert_eq!(tracking.get(), 2);

    insert_on(&mut bowl, full, (Count::<4>(9),));
    how_many::<Mark>(&mut bowl);
    assert_eq!(anchor.get(), 2, "the facet anchor contributes no revision deps");
    assert_eq!(tracking.get(), 3, "every part of the row is observed");

    insert_on(&mut bowl, plain, (Count::<1>(5),));
    how_many::<Mark>(&mut bowl);
    assert_eq!(tracking.get(), 4, "an optional part appearing must invalidate the row");
    assert_eq!(anchor.get(), 2);
}

#[test]
fn a_despawned_entity_is_gone() {
    let mut bowl = Recipe::new().system(make_b(), run_make_b).build();
    let gone = insert(&mut bowl, (Count::<0>(1),));
    insert(&mut bowl, (Count::<0>(2),));
    assert_eq!(values::<B>(&mut bowl), vec![2, 3]);

    bowl.despawn(gone);
    assert_eq!(values::<A>(&mut bowl), vec![2]);
    assert_eq!(values::<B>(&mut bowl), vec![3]);
}

#[test]
fn an_unbound_argument_is_reported() {
    let mut bowl = Recipe::new().build();
    insert(&mut bowl, (Count::<0>(1), Count::<11>(MAIN)));
    match bowl.scoop::<(Entity, &A), Where<bowl::query::Eq<Label>>>(&no_args(), None) {
        Err(ScoopError::Unbound(missing)) => assert_eq!(missing, kind::<Label>()),
        _ => panic!("no label was bound"),
    }
}

#[test]
fn reading_a_settled_bowl_changes_nothing() {
    let runs = counter();
    let seen = runs.clone();
    let mut bowl = Recipe::new()
        .system(make_b(), move |step| {
            bump(&seen);
            run_make_b(step);
        })
        .build();
    insert(&mut bowl, (Count::<0>(1),));
    let first = bowl.settled().unwrap();
    let second = bowl.settled().unwrap();
    assert_eq!(first.revision_raw(), second.revision_raw());
    assert_eq!(first.next_entity_raw(), second.next_entity_raw());
    assert_eq!(runs.get(), 1);
}

/// Runs the phases of an evaluation that are left.
fn run_phases(
    state: &mut State<Fact>,
    kitchen: &mut Kitchen,
    plan: &mut PhasePlan,
    memo: &mut MemoTable,
    budget: &mut CommitBudget,
) {
    while let Some(phase) = plan.current() {
        let changed = state.run_phase(phase, memo, kitchen, budget).unwrap();
        plan.phase_completed(changed);
    }
}

fn put(state: &mut State<Fact>, fact: Fact) {
    assert!(state.insert(vec![fact], false, None).is_ok());
}

fn begin(state: &mut State<Fact>) -> Evaluation {
    match state.start_evaluation() {
        Some(Ok(evaluation)) => evaluation,
        _ => panic!("an input is pending"),
    }
}

#[test]
fn preempting_insert_forces_the_boundary() {
    let (started, completed) = (counter(), counter());
    let (one, two) = (started.clone(), completed.clone());
    let (mut state, mut kitchen) = Recipe::new()
        .system(function("pi_reader", vec![query(&[kind::<D>()]), anything()]), move |step| {
            bump(&one);
            bump(&two);
            let row = step.row(0);
            let value = step.num::<D>(row);
            step.put::<Tally>(row, Count(value));
        })
        .system(make_b(), run_make_b)
        .parts();
    put(&mut state, Count::<3>(5).erase());
    assert!(state.settle(&mut kitchen, CommitLimit::Unlimited).is_ok());
    assert_eq!(completed.get(), 1);

    put(&mut state, Count::<3>(6).erase());
    state.enter_epoch();
    let Evaluation { generation, startup, mut memo } = begin(&mut state);
    let mut plan = PhasePlan::new(startup);
    let mut driver = PhaseDriver::new(plan.allow_preempt());
    let snapshot = state.snapshot();
    for batch in state.plan_wave(Phase::Evaluate, &snapshot, &memo).unwrap() {
        assert_eq!(driver.take_up(&batch.owner, &batch.access), Admission::Reader);
        bump(&started);
    }
    assert_eq!(started.get(), 2);

    let inputs = match state.insert(vec![Count::<0>(9).erase()], true, None) {
        Ok(Inserted::Boundary { inputs, .. }) => inputs,
        _ => panic!("the bowl is running"),
    };
    let mut waiter = PreemptWaiter::new(false);
    assert!(!state.boundary_reached(&mut waiter));
    assert_eq!(driver.next_step(state.preemption_requested()), DriverStep::Preempt);
    driver.drop_readers();
    assert!(driver.idle());
    state.open_preempt_window();
    assert!(state.boundary_reached(&mut waiter));
    state.finish_waiter(&mut waiter);
    state.queue_inputs(inputs);
    assert!(state.close_preempt_window());
    state.restart_preempted();
    plan.phase_preempted(driver.changed());

    let mut budget = CommitBudget::new(CommitLimit::Unlimited);
    run_phases(&mut state, &mut kitchen, &mut plan, &mut memo, &mut budget);
    state.finish_evaluation(generation, memo, plan.changed());
    while state.run_generation(&mut kitchen, &mut budget).unwrap() {}

    assert_eq!(started.get(), 3, "the in-flight reader must be dropped and replanned");
    assert_eq!(completed.get(), 2, "the dropped attempt must never complete");
    let snapshot = state.snapshot();
    assert!(
        snapshot
            .entities_with(kind::<B>())
            .iter()
            .any(|row| number(snapshot.get(kind::<B>(), *row).unwrap()) == 10),
        "the preempting insert must be processed within this epoch"
    );
    state.leave_epoch();
}

/// Sources derive facts; questions about them are answered once the derivation is
/// settled, which a marker says that does not outlive the settle.
fn service(
    started: &Rc<Cell<usize>>,
    completed: &Rc<Cell<usize>>,
    retracted: &Rc<Cell<usize>>,
    answers: &Rc<RefCell<Vec<(Vec<u8>, bool)>>>,
) -> (State<Fact>, Kitchen) {
    let (one, two, three, log) =
        (started.clone(), completed.clone(), retracted.clone(), answers.clone());
    let passing = || vec![filtered(&[], vec![RowFilter::With(kind::<Passing>())]), anything()];
    Recipe::new()
        .system(
            function("epoch_derive", vec![query(&[kind::<Src>()]), anything()])
                .on_settled::<Callback, Anything>(callback(publish_ready)),
            |step| {
                let row = step.row(0);
                let text = step.text::<Src>(row);
                step.spawn(vec![derived(&[row]), count_fact(Text::<3>(text))]);
            },
        )
        .system(
            function(
                "consume",
                vec![
                    filtered(&[], vec![RowFilter::With(kind::<Ready>())]),
                    query(&[kind::<Ask>()]),
                    view(&[kind::<Def>()]),
                ],
            ),
            move |step| {
                bump(&one);
                let asked = step.text::<Ask>(step.row(1));
                let found = step.all::<Def>().iter().any(|def| step.text::<Def>(*def) == asked);
                log.borrow_mut().push((asked, found));
                bump(&two);
            },
        )
        .system(
            function("startup_retract", passing()).run_during(Phase::Startup),
            move |step| {
                bump(&three);
                run_remove(step);
            },
        )
        .system(
            function("cleanup_epoch_ephemeral", passing()).run_during(Phase::Settle),
            run_remove,
        )
        .parts()
}

#[test]
fn deferred_mut_waits_for_the_natural_boundary() {
    let (started, completed, retracted) = (counter(), counter(), counter());
    let answers = Rc::new(RefCell::new(Vec::new()));
    let (mut state, mut kitchen) = service(&started, &completed, &retracted, &answers);
    put(&mut state, Text::<2>(b"old".to_vec()).erase());
    put(&mut state, Text::<4>(b"new".to_vec()).erase());
    assert!(state.settle(&mut kitchen, CommitLimit::Unlimited).is_ok());
    assert_eq!(completed.get(), 1);
    let source = state.snapshot().entities_with(kind::<Src>())[0];

    put(&mut state, Count::<3>(1).erase());
    state.enter_epoch();
    let Evaluation { generation, startup, mut memo } = begin(&mut state);
    let mut waiter = PreemptWaiter::new(true);
    assert_eq!(
        state.mutation_step(&mut waiter, kind::<Src>(), source, None),
        MutationStep::Wait
    );
    assert!(!state.preemption_requested());
    let mut plan = PhasePlan::new(startup);
    let mut budget = CommitBudget::new(CommitLimit::Unlimited);
    run_phases(&mut state, &mut kitchen, &mut plan, &mut memo, &mut budget);
    state.finish_evaluation(generation, memo, plan.changed());
    assert_eq!(
        state.mutation_step(&mut waiter, kind::<Src>(), source, None),
        MutationStep::Ready
    );
    let written = Text::<2>(b"new".to_vec()).erase();
    assert_eq!(state.apply_component_mutation(source, written), Some(true));
    assert!(state.settle(&mut kitchen, CommitLimit::Unlimited).is_ok());
    state.leave_epoch();
    assert!(state.settle(&mut kitchen, CommitLimit::Unlimited).is_ok());

    assert_eq!(
        started.get(),
        completed.get(),
        "a deferred write must never drop in-flight work"
    );
    assert_eq!(
        answers.borrow().last().cloned(),
        Some((b"new".to_vec(), true)),
        "the write must land at a boundary and re-derive"
    );
}

#[test]
fn preemptive_mut_restarts_the_epoch_and_retracts_markers() {
    let (started, completed, retracted) = (counter(), counter(), counter());
    let answers = Rc::new(RefCell::new(Vec::new()));
    let (mut state, mut kitchen) = service(&started, &completed, &retracted, &answers);
    put(&mut state, Text::<2>(b"old".to_vec()).erase());
    put(&mut state, Text::<4>(b"new".to_vec()).erase());
    assert!(state.settle(&mut kitchen, CommitLimit::Unlimited).is_ok());
    assert_eq!(completed.get(), 1);
    let source = state.snapshot().entities_with(kind::<Src>())[0];

    put(&mut state, Count::<2>(7).erase());
    state.enter_epoch();
    let mut budget = CommitBudget::new(CommitLimit::Unlimited);
    while state.run_generation(&mut kitchen, &mut budget).unwrap() {}
    state.enqueue_next_generation();
    while state.run_generation(&mut kitchen, &mut budget).unwrap() {}

    // The settled hook publishes the marker: another generation is due.
    let mut memo = state.take_memo();
    let snapshot = state.snapshot();
    let mut allocator = EntityAllocator::new(state.next_entity());
    let mut runs = Vec::new();
    for system in state.due_settled_hooks(&snapshot, &memo).unwrap() {
        let owner = SystemInvocation::new(system, Vec::new());
        let mut commands: Commands<Fact, Anything> = Commands::new(snapshot.spawn_slots(&owner));
        kitchen.hook(system, Wrapper::Settled, 0, &mut commands, &mut allocator);
        runs.push(SystemRun::settled(SystemOutput { owner, commands: commands.take() }));
    }
    state.advance_entities(allocator.next_entity());
    let progress = state.commit_settled_hooks(&mut memo, runs).unwrap();
    assert!(state.finish_settled_hooks(memo, progress.needs_followup));

    let Evaluation { generation, startup, mut memo } = begin(&mut state);
    let mut plan = PhasePlan::new(startup);
    let mut driver = PhaseDriver::new(plan.allow_preempt());
    let snapshot = state.snapshot();
    for batch in state.plan_wave(Phase::Evaluate, &snapshot, &memo).unwrap() {
        assert_eq!(driver.take_up(&batch.owner, &batch.access), Admission::Reader);
        bump(&started);
    }
    assert_eq!(started.get(), 2);

    let mut waiter = PreemptWaiter::new(false);
    assert_eq!(
        state.mutation_step(&mut waiter, kind::<Src>(), source, None),
        MutationStep::Wait
    );
    assert_eq!(driver.next_step(state.preemption_requested()), DriverStep::Preempt);
    driver.drop_readers();
    state.open_preempt_window();
    assert_eq!(
        state.mutation_step(&mut waiter, kind::<Src>(), source, None),
        MutationStep::Ready
    );
    let written = Text::<2>(b"new".to_vec()).erase();
    assert_eq!(state.apply_component_mutation(source, written), Some(true));
    state.finish_waiter(&mut waiter);
    assert!(state.close_preempt_window());
    state.restart_preempted();
    plan.phase_preempted(driver.changed());
    run_phases(&mut state, &mut kitchen, &mut plan, &mut memo, &mut budget);
    state.finish_evaluation(generation, memo, plan.changed());
    assert!(state.settle(&mut kitchen, CommitLimit::Unlimited).is_ok());
    state.leave_epoch();
    assert!(state.settle(&mut kitchen, CommitLimit::Unlimited).is_ok());

    assert!(
        retracted.get() >= 1,
        "preempt restart must run the Startup slot and retract the marker"
    );
    assert_eq!(
        started.get(),
        3,
        "the in-flight read-only consumer must be dropped and replanned"
    );
    assert_eq!(completed.get(), 2, "the dropped attempt must never complete");
    assert_eq!(
        answers.borrow().last().cloned(),
        Some((b"new".to_vec(), true)),
        "the restarted epoch must answer from the post-write world"
    );
}

#[test]
fn a_batch_inside_hooks_writes_with_its_invocations() {
    let (mut state, _) = Recipe::new()
        .system(
            function("rank_all", vec![exclusive(kind::<Rank>(), Vec::new())])
                .on_complete::<Callback, Anything>(callback(|_| {})),
            |_| {},
        )
        .parts();
    put(&mut state, Count::<12>(1).erase());
    put(&mut state, Count::<12>(2).erase());
    let Evaluation { memo, .. } = begin(&mut state);
    let snapshot = state.snapshot();
    let batches = state.plan_wave(Phase::Evaluate, &snapshot, &memo).unwrap();
    assert_eq!(batches.len(), 1);
    assert_eq!(batches[0].invocations.len(), 2);
    let written = batches[0].access.iter().filter(|access| access.kind == AccessKind::Write);
    assert_eq!(written.count(), 2);
    let mut driver = PhaseDriver::new(false);
    assert_eq!(driver.take_up(&batches[0].owner, &batches[0].access), Admission::Writer);
}

#[test]
fn an_outer_join_on_two_keys_wants_one_row_with_both() {
    let mut bowl = Recipe::new()
        .system(
            function(
                "pair_or_none",
                vec![
                    filtered(
                        &[kind::<Key>(), kind::<KeyB>()],
                        vec![RowFilter::With(kind::<Request>())],
                    ),
                    Param::Outer(rows_of(
                        &[kind::<D>()],
                        vec![RowFilter::Bound(kind::<Key>()), RowFilter::Bound(kind::<KeyB>())],
                    )),
                    anything(),
                ],
            ),
            |step| {
                let request = step.row(0);
                let value = match step.partner(1) {
                    Some(partner) => step.num::<D>(partner),
                    None => 999,
                };
                step.put::<Tally>(request, Count(value));
            },
        )
        .build();

    let request = insert(&mut bowl, (Count::<6>(0), rank(1), key_b(5)));
    insert(&mut bowl, (Count::<3>(10), rank(1), key_b(6)));
    insert(&mut bowl, (Count::<3>(20), rank(2), key_b(5)));
    assert_eq!(
        value_on::<Tally>(&mut bowl, request),
        Some(999),
        "each key is somewhere, but no row has both"
    );

    insert(&mut bowl, (Count::<3>(30), rank(1), key_b(5)));
    assert_eq!(value_on::<Tally>(&mut bowl, request), Some(30));
}

#[test]
fn the_commit_after_the_limit_is_the_one_that_fails() {
    let mut bowl = Recipe::new()
        .system(
            function(
                "spawn_more",
                vec![filtered(&[], vec![RowFilter::With(kind::<A>())]), anything()],
            ),
            |step| {
                step.spawn(vec![count_fact(Count::<0>(0))]);
            },
        )
        .build();
    bowl.set_commit_limit(CommitLimit::Max(2));
    insert(&mut bowl, (Count::<0>(1),));
    match bowl.settle() {
        Err(EngineError::Budget(BudgetError::Exceeded { accepted, limit })) => {
            assert_eq!((accepted, limit), (3, 2));
        }
        _ => panic!("the limit is exceeded"),
    }
    bowl.set_commit_limit(CommitLimit::Max(0));
    assert!(matches!(bowl.settle(), Err(EngineError::Budget(_))));
}

#[test]
fn a_write_outside_the_exclusive_rows_is_dropped() {
    let mut bowl = Recipe::new()
        .system(
            function("overreach", vec![exclusive(kind::<Rank>(), Vec::new())]),
            |step| {
                let row = step.row(0);
                step.write::<Rank>(row, Count(42));
                step.write::<A>(row, Count(42));
            },
        )
        .build();
    let row = insert(&mut bowl, (Count::<12>(1), Count::<0>(1)));
    assert_eq!(value_on::<Rank>(&mut bowl, row), Some(42));
    assert_eq!(value_on::<A>(&mut bowl, row), Some(1));
}
