use bowl::entity::Entity;
use bowl::facts::{component_of, Count, Ephemeral, Fact, Text, COUNT, TEXT};
use bowl::filter::Always;
use bowl::pipeline::commands::Commands;
use bowl::pipeline::config::{insert, insert_on, Callback, SystemConfig, SystemExt};
use bowl::pipeline::db::{Db, DbError};
use bowl::pipeline::odometer::advance_indices;
use bowl::pipeline::order::{system_order, OrderError};
use bowl::pipeline::rows::{GoneComponent, RowShape, RowView};
use bowl::pipeline::run::SystemBody;
use bowl::pipeline::tables::Tables;
use bowl::query::{And, Gte, Not, Or, With, Without};
use std::cell::Cell;
use std::rc::Rc;

type A = Count<0>;
type B = Count<1>;
type C = Count<2>;
type Request = Count<3>;
type Scratch = Count<4>;
type Answer = Count<5>;
type Done = Count<6>;
type HashA = Text<0>;

const KIND_A: u32 = 0;
const KIND_B: u32 = 1;
const KIND_C: u32 = 2;
const KIND_REQUEST: u32 = 3;
const KIND_SCRATCH: u32 = 4;
const KIND_ANSWER: u32 = 5;
const KIND_DONE: u32 = 6;

fn row(slots: &[u32]) -> RowShape {
    RowShape { kinds: slots.iter().map(|slot| component_of(COUNT, *slot)).collect(), joined: true }
}

fn text_row() -> RowShape {
    RowShape { kinds: vec![component_of(TEXT, 0)], joined: true }
}

fn number(value: Option<&Fact>) -> Option<u64> {
    match value {
        Some(Fact::Count { value, .. }) => Some(*value),
        _ => None,
    }
}

fn count_of(tables: &Tables<Fact>, slot: u32, entity: Entity) -> u64 {
    number(tables.get(component_of(COUNT, slot), entity)).unwrap()
}

enum Sys {
    MakeB,
    MakeC,
    MakeCAfterDone,
    CountHashA(Rc<Cell<u32>>),
    AnswerRequest,
    SpawnScratch,
    AnswerScratch,
    CountWithView(Rc<Cell<u32>>),
    Lend,
}

impl SystemBody<Fact> for Sys {
    fn queries(&self) -> Vec<RowShape> {
        match self {
            Sys::MakeB => vec![row(&[KIND_A])],
            Sys::MakeC => vec![row(&[KIND_B])],
            Sys::MakeCAfterDone => vec![row(&[KIND_B]), row(&[KIND_DONE])],
            Sys::CountHashA(_) => vec![text_row()],
            Sys::AnswerRequest => vec![row(&[KIND_REQUEST])],
            Sys::SpawnScratch => vec![row(&[KIND_REQUEST])],
            Sys::AnswerScratch => vec![row(&[KIND_SCRATCH])],
            Sys::CountWithView(_) => vec![row(&[KIND_A])],
            Sys::Lend => vec![row(&[KIND_A])],
        }
    }

    fn run(&self, tables: &Tables<Fact>, keys: &Vec<Entity>, commands: &mut Commands<Fact>) {
        let entity = keys[0];
        match self {
            Sys::MakeB => {
                let a = count_of(tables, KIND_A, entity);
                commands.entity(entity).insert(Count::<1>(a + 1));
            }
            Sys::MakeC | Sys::MakeCAfterDone => {
                let b = count_of(tables, KIND_B, entity);
                commands.entity(entity).insert(Count::<2>(b + 1));
            }
            Sys::CountHashA(runs) => {
                runs.set(runs.get() + 1);
                commands.entity(entity).insert(Count::<1>(1));
            }
            Sys::AnswerRequest => {
                let request = count_of(tables, KIND_REQUEST, entity);
                commands.entity(entity).insert(Count::<5>(request + 1));
            }
            Sys::SpawnScratch => {
                let request = count_of(tables, KIND_REQUEST, entity);
                commands.insert((Ephemeral, Count::<4>(request + 1)));
            }
            Sys::AnswerScratch => {
                let scratch = count_of(tables, KIND_SCRATCH, entity);
                commands.entity(entity).insert(Count::<5>(scratch + 1));
            }
            Sys::CountWithView(runs) => {
                runs.set(runs.get() + 1);
                let a = count_of(tables, KIND_A, entity);
                let bs = row(&[KIND_B]).rows(tables);
                commands.entity(entity).insert(Count::<2>(a + bs.len() as u64));
            }
            Sys::Lend => {
                if count_of(tables, KIND_A, entity) == 1 {
                    commands.entity(Entity::from_raw(1)).insert(Count::<0>(0));
                }
            }
        }
    }
}

type TestDb = Db<Fact, Sys, Callback<Fact>>;

fn rows(db: &mut TestDb, slots: &[u32]) -> Vec<Entity> {
    db.query(row(slots)).collect::<Always>().unwrap()
}

fn get<T: bowl::component::ComponentType<Universe = Fact>>(
    db: &mut TestDb,
    entity: Entity,
) -> Option<u64> {
    number(db.get::<T>(entity).unwrap())
}

#[test]
fn skips_valid_invocations_and_reruns_changed_entities() {
    let mut db = TestDb::new();
    db.add_system(Sys::MakeB);

    let first = db.insert((Count::<0>(1),));
    let second = db.insert((Count::<0>(10),));

    assert_eq!(rows(&mut db, &[KIND_B]).len(), 2);
    assert_eq!(get::<B>(&mut db, first), Some(2));
    assert_eq!(get::<B>(&mut db, second), Some(11));

    db.insert_component(first, Count::<0>(2));
    assert_eq!(rows(&mut db, &[KIND_B]).len(), 2);

    assert_eq!(get::<B>(&mut db, first), Some(3));
    assert_eq!(get::<B>(&mut db, second), Some(11));
}

#[test]
fn run_after_orders_systems_before_query_results_are_returned() {
    let mut db = TestDb::new();
    let make_b = db.add_system(Sys::MakeB);
    db.add_system(SystemExt::run_after::<Callback<Fact>>(Sys::MakeC, make_b));

    let entity = db.insert((Count::<0>(10),));

    assert_eq!(rows(&mut db, &[KIND_C]).len(), 1);
    assert_eq!(get::<B>(&mut db, entity), Some(11));
    assert_eq!(get::<C>(&mut db, entity), Some(12));
}

#[test]
fn on_complete_can_insert_a_marker_for_later_systems() {
    let mut db = TestDb::new();
    let make_b =
        db.add_system(SystemExt::on_complete(Sys::MakeB, insert((Count::<6>(0),))));
    db.add_system(SystemExt::run_after::<Callback<Fact>>(Sys::MakeCAfterDone, make_b));

    let entity = db.insert((Count::<0>(10),));

    assert_eq!(rows(&mut db, &[KIND_C]).len(), 1);
    assert_eq!(get::<B>(&mut db, entity), Some(11));
    assert_eq!(get::<C>(&mut db, entity), Some(12));
    assert_eq!(rows(&mut db, &[KIND_DONE]).len(), 1);
}

#[test]
fn hashed_components_do_not_bump_revisions_when_the_hash_is_unchanged() {
    let runs = Rc::new(Cell::new(0));
    let mut db = TestDb::new();
    db.add_system(Sys::CountHashA(runs.clone()));

    let entity = db.insert((Text::<0>(vec![10]),));

    rows(&mut db, &[KIND_B]);
    assert_eq!(runs.get(), 1);

    db.insert_component(entity, Text::<0>(vec![10]));
    rows(&mut db, &[KIND_B]);
    assert_eq!(runs.get(), 1);

    db.insert_component(entity, Text::<0>(vec![11]));
    rows(&mut db, &[KIND_B]);
    assert_eq!(runs.get(), 2);
}

#[test]
fn view_does_not_invalidate_memoized_query_rows() {
    let runs = Rc::new(Cell::new(0));
    let mut db = TestDb::new();
    db.add_system(Sys::CountWithView(runs.clone()));

    let entity = db.insert((Count::<0>(1),));
    rows(&mut db, &[KIND_C]);

    assert_eq!(runs.get(), 1);
    assert_eq!(get::<C>(&mut db, entity), Some(1));

    db.insert((Count::<1>(10),));
    rows(&mut db, &[KIND_C]);

    assert_eq!(runs.get(), 1);
    assert_eq!(get::<C>(&mut db, entity), Some(1));
}

#[test]
fn inserted_entity_query_can_clean_up_ephemeral_inputs_and_outputs() {
    let mut db = TestDb::new();
    db.add_system(Sys::AnswerRequest);

    let entity = db.insert((Ephemeral, Count::<3>(41)));
    let answers = db.query_inserted(entity, row(&[KIND_ANSWER])).collect::<Always>().unwrap();

    assert_eq!(answers.len(), 1);
    assert_eq!(number(db.peek::<Answer>(answers.rows[0])), Some(42));

    answers.release(&mut db);

    assert!(rows(&mut db, &[KIND_REQUEST]).is_empty());
    assert!(rows(&mut db, &[KIND_ANSWER]).is_empty());
}

#[test]
fn inserted_entity_query_keeps_durable_inputs_and_outputs() {
    let mut db = TestDb::new();
    db.add_system(Sys::AnswerRequest);

    let request = db.insert((Count::<3>(9),));
    let answers = db.query_inserted(request, row(&[KIND_ANSWER])).collect::<Always>().unwrap();

    assert_eq!(answers.len(), 1);
    assert_eq!(number(db.peek::<Answer>(answers.rows[0])), Some(10));

    answers.release(&mut db);

    assert_eq!(get::<Request>(&mut db, request), Some(9));
    assert_eq!(get::<Answer>(&mut db, request), Some(10));
}

#[test]
fn command_inserted_ephemeral_entities_are_cleaned_up_after_inserted_query() {
    let mut db = TestDb::new();
    db.add_system(Sys::SpawnScratch);
    db.add_system(Sys::AnswerScratch);

    let request = db.insert((Count::<3>(40),));
    let requests = db.query_inserted(request, row(&[KIND_REQUEST])).collect::<Always>().unwrap();

    assert_eq!(requests.len(), 1);

    requests.release(&mut db);

    let tables = &db.data().tables;
    assert_eq!(tables.entities_with(component_of(COUNT, KIND_REQUEST)).len(), 1);
    assert!(tables.entities_with(component_of(COUNT, KIND_SCRATCH)).is_empty());
    assert!(tables.entities_with(component_of(COUNT, KIND_ANSWER)).is_empty());
}

#[test]
fn inserted_entity_query_can_take_owned_output_and_clean_up_immediately() {
    let mut db = TestDb::new();
    db.add_system(Sys::AnswerRequest);

    let entity = db.insert((Ephemeral, Count::<3>(41)));
    let answer =
        db.query_inserted(entity, row(&[KIND_ANSWER])).one::<Answer>().unwrap().unwrap();

    assert_eq!(number(Some(&*answer)), Some(42));
    let tables = &db.data().tables;
    assert!(tables.entities_with(component_of(COUNT, KIND_REQUEST)).is_empty());
    assert!(tables.entities_with(component_of(COUNT, KIND_ANSWER)).is_empty());
}

#[test]
fn systems_in_a_circle_are_refused() {
    let mut db = TestDb::new();
    let first = db.add_system(Sys::MakeB);
    let mut other = TestDb::new();
    other.add_system(SystemConfig::new(Sys::MakeB).run_after(first));
    assert_eq!(
        other.query(row(&[KIND_A])).collect::<Always>().err(),
        Some(DbError::Order(OrderError::Cycle))
    );
    assert_eq!(OrderError::Cycle.message(), "system run_after cycle");
}

#[test]
fn unknown_handles_are_refused() {
    let mut db = TestDb::new();
    db.add_system(Sys::MakeB);
    let second = db.add_system(Sys::MakeC);
    let mut other = TestDb::new();
    other.add_system(SystemConfig::new(Sys::MakeB).run_after(second));
    assert_eq!(other.materialize().err(), Some(DbError::Order(OrderError::Unregistered)));
    assert_eq!(
        OrderError::Unregistered.message(),
        "system depends on a handle that is not registered"
    );
}

#[test]
fn order_puts_each_system_behind_what_it_runs_after() {
    assert_eq!(system_order(&vec![vec![2], vec![], vec![1]]), Ok(vec![1, 2, 0]));
    assert_eq!(system_order(&vec![vec![1], vec![0]]), Err(OrderError::Cycle));
    assert_eq!(system_order(&vec![vec![1]]), Err(OrderError::Unregistered));
}

#[test]
fn indices_count_through_all_combinations() {
    let lengths = vec![2, 3];
    let mut indices = vec![0, 0];
    let mut seen = vec![indices.clone()];
    while advance_indices(&mut indices, &lengths) {
        seen.push(indices.clone());
    }
    assert_eq!(
        seen,
        vec![vec![0, 0], vec![0, 1], vec![0, 2], vec![1, 0], vec![1, 1], vec![1, 2]]
    );
    assert_eq!(indices, vec![0, 0]);
}

#[test]
fn a_row_that_an_earlier_row_took_away_is_reported() {
    let mut db = TestDb::new();
    db.add_system(Sys::Lend);
    let lender = db.insert((Count::<0>(1),));
    let borrower = db.insert((Count::<1>(5),));
    assert_eq!(get::<A>(&mut db, borrower), Some(0));

    db.insert_component(lender, Count::<0>(2));
    assert_eq!(
        db.materialize().err(),
        Some(DbError::Gone(GoneComponent { kind: component_of(COUNT, KIND_A), entity: 1 }))
    );
}

#[test]
fn filters_compare_with_bound_values() {
    let mut db = TestDb::new();
    let low = db.insert((Count::<0>(3), Count::<1>(0)));
    let high = db.insert((Count::<0>(7),));

    let found = db.query(row(&[KIND_A])).bind(Count::<0>(5)).collect::<Gte<A>>().unwrap();
    assert_eq!(found.len(), 1);
    assert_eq!(found[0].raw(), high.raw());

    let found =
        db.query(row(&[KIND_A])).bind(Count::<0>(3)).collect::<bowl::query::Eq<A>>().unwrap();
    assert_eq!(found[0].raw(), low.raw());

    let found = db.query(row(&[KIND_A])).collect::<And<With<A>, Without<B>>>().unwrap();
    assert_eq!(found[0].raw(), high.raw());

    let found = db.query(row(&[KIND_A])).collect::<Or<With<B>, Not<With<B>>>>().unwrap();
    assert_eq!(found.len(), 2);

    assert_eq!(
        db.query(row(&[KIND_A])).collect::<Gte<A>>().err(),
        Some(DbError::Unbound(component_of(COUNT, KIND_A)))
    );
}

#[test]
fn insert_on_marks_a_given_entity_on_completion() {
    let mut db = TestDb::new();
    let entity = db.insert((Count::<0>(1),));
    db.add_system(SystemExt::on_complete(Sys::MakeB, insert_on(entity, Count::<6>(9))));
    assert_eq!(get::<Done>(&mut db, entity), Some(9));
    assert_eq!(get::<Scratch>(&mut db, entity), None);
    assert_eq!(get::<HashA>(&mut db, entity), None);
}

#[test]
fn a_row_view_finds_the_first_row_of_an_entity() {
    let (one, two) = (Entity::from_raw(1), Entity::from_raw(2));
    let view = RowView { rows: vec![(one, 10), (two, 20), (one, 30)] };
    assert_eq!(view.len(), 3);
    assert!(!view.is_empty());
    assert_eq!(view.get(one), Some(&10));
    assert_eq!(view.get(two), Some(&20));
    assert_eq!(view.get(Entity::from_raw(3)), None);
}

#[test]
fn an_owned_row_is_taken_with_its_entity() {
    let mut db: Db<Fact, Sys, Callback<Fact>> = Db::new();
    db.add_system(Sys::AnswerRequest);
    let entity = db.insert((Count::<3>(4),));
    let taken = db.query_inserted(entity, row(&[KIND_ANSWER])).collect_owned::<Answer>().unwrap();
    assert_eq!(taken.len(), 1);
    assert_eq!(taken[0].0.raw(), entity.raw());
    assert_eq!(number(Some(&*taken[0].1)), Some(5));

    let none = db.query_inserted(entity, row(&[KIND_B])).collect_owned::<B>().unwrap();
    assert!(none.is_empty());
}
