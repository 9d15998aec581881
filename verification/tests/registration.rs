use bowl::commands::{CommandOp, Commands, EntityAllocator};
use bowl::component::ComponentType;
use bowl::config::{hook_output, insert_on, FunctionSystem, InsertOn, SystemCallback, SystemExt};
use bowl::declare::{Anything, ShapeDesc, ShapePartDesc};
use bowl::entity::Entity;
use bowl::facts::{Count, Fact, Note};
use bowl::invocation::{SystemId, SystemInvocation};
use bowl::param::{BindingError, Param};
use bowl::query::{PartMode, QueryPart, RowFilter, RowQuery};
use bowl::state::builder::{BowlBuilder, Plugin, Registrar};
use bowl::param::RowState;
use bowl::state::hooks::{HookTable, RowBodies};
use bowl::state::State;
use bowl::world::World;
use bowl::system::{collect_invocations, merge_runs, SystemOutput, SystemRun, SystemStats};

fn kind() -> u64 {
    <Count<0> as ComponentType>::component_type()
}

fn rows(filters: Vec<RowFilter>) -> RowQuery {
    RowQuery::new(vec![QueryPart { component: kind(), mode: PartMode::Read }], filters)
}

struct Counting {
    filters: Vec<RowFilter>,
}

impl Plugin<()> for Counting {
    fn shapes(&self) -> Vec<ShapeDesc> {
        let part = ShapePartDesc { component: kind(), name: "Count" };
        vec![ShapeDesc { name: "Counted", required: vec![part], optional: Vec::new() }]
    }

    fn build(&self, registrar: &mut Registrar<()>) -> Result<(), BindingError> {
        let mut filters = Vec::new();
        for filter in &self.filters {
            filters.push(*filter);
        }
        registrar.system(FunctionSystem {
            name: "counting",
            params: vec![Param::Query(rows(filters))],
        })
    }
}

fn first() -> FunctionSystem {
    FunctionSystem { name: "first", params: vec![Param::Query(rows(Vec::new()))] }
}

#[test]
fn a_plugin_registers_behind_what_was_there() {
    let builder = BowlBuilder::<()>::new(true).system(first()).unwrap();
    let builder = builder.plugin(&Counting { filters: Vec::new() }).unwrap();
    let (state, hooks): (State<Fact>, HookTable<()>) = builder.build().unwrap();
    assert!(hooks.get(SystemId(0), 0).is_none());
    assert_eq!(state.system_names(), vec!["first", "counting"]);
    assert!(!state.is_settled(), "registered systems are pending work");
}

#[test]
fn a_refused_system_fails_the_builder() {
    let filters = vec![RowFilter::Bound(kind())];
    let builder = BowlBuilder::<()>::new(true).system(first()).unwrap();
    match builder.plugin(&Counting { filters }) {
        Err(error) => assert_eq!(error, BindingError::Providers { key: kind(), found: 0 }),
        Ok(_) => panic!("nothing reads the key"),
    }
}

#[test]
fn a_bowl_without_systems_is_settled() {
    let (state, _): (State<Fact>, HookTable<()>) =
        BowlBuilder::<()>::new(true).build().unwrap();
    assert!(state.is_settled());
    assert!(state.system_names().is_empty());
}

struct SpawnTwo;

impl SystemCallback<Fact, Anything> for SpawnTwo {
    fn run(&self, commands: &mut Commands<Fact, Anything>, allocator: &mut EntityAllocator) {
        commands.spawn(vec![Count::<0>(1).erase()], allocator);
        commands.spawn(vec![Count::<0>(2).erase()], allocator);
    }
}

#[test]
fn a_hook_reuses_its_spawn_slots() {
    let mut allocator = EntityAllocator::new(10);
    let slots = vec![Entity::from_raw(3)];
    let output = hook_output(&SpawnTwo, SystemId(4), slots, &mut allocator);
    assert_eq!(output.owner.system.0, 4);
    assert!(output.owner.keys.is_empty());
    let reserved: Vec<u64> = output
        .commands
        .iter()
        .map(|op| match op {
            CommandOp::Spawn { reserved, .. } => reserved.raw(),
            _ => panic!("the hook only spawns"),
        })
        .collect();
    assert_eq!(reserved, vec![3, 10]);
    assert_eq!(allocator.next_entity(), 11);
}

#[test]
fn a_completion_callback_inserts_on_its_entity() {
    let mut allocator = EntityAllocator::new(0);
    let callback = insert_on(Entity::from_raw(6), Note::<0>(9));
    let output: SystemOutput<Fact> =
        hook_output::<Fact, (Note<0>,), _>(&callback, SystemId(0), Vec::new(), &mut allocator);
    match &output.commands[..] {
        [CommandOp::Insert { entity, value: Fact::Note { slot: 0, value: 9 } }] => {
            assert_eq!(entity.raw(), 6)
        }
        _ => panic!("one insert is due"),
    }
}

fn run(completed: bool, system: usize) -> SystemRun<Fact> {
    let mut run = SystemRun::empty();
    run.completed = completed;
    run.outputs.push(SystemOutput {
        owner: SystemInvocation::new(SystemId(system), Vec::new()),
        commands: Vec::new(),
    });
    run
}

#[test]
fn runs_are_merged_in_order() {
    let merged = merge_runs(vec![run(true, 1), run(true, 2)]);
    assert!(merged.completed);
    let order: Vec<usize> = merged.outputs.iter().map(|output| output.owner.system.0).collect();
    assert_eq!(order, vec![1, 2]);
    assert!(!merge_runs(vec![run(true, 1), run(false, 2)]).completed);
    assert!(merge_runs::<Fact>(Vec::new()).completed);
    assert!(!collect_invocations(false, vec![run(true, 1)]).completed);
    assert_eq!(collect_invocations(true, vec![run(false, 1), run(true, 2)]).outputs.len(), 2);
}

#[test]
fn a_run_is_counted_when_its_poll_is_ready() {
    let mut stats = SystemStats::new();
    stats.record_plan(5);
    stats.record_poll(7, false);
    stats.record_poll(11, true);
    assert_eq!((stats.plan_nanos, stats.run_nanos, stats.runs), (5, 18, 1));
}

/// Bodies that leave everything as it is, and count their runs.
struct Idle(usize);

impl RowBodies<Fact> for Idle {
    fn run(
        &mut self,
        _system: SystemId,
        _rows: &Vec<RowState>,
        _snapshot: &World<Fact>,
        _commands: &mut Commands<Fact, Anything>,
        _allocator: &mut EntityAllocator,
    ) -> Vec<(Entity, Fact)> {
        self.0 += 1;
        Vec::new()
    }
}

#[test]
fn a_registered_callback_reaches_the_world() {
    let marked = Entity::from_raw(40);
    let builder = BowlBuilder::<InsertOn<Note<0>>>::new(true)
        .system(first().on_complete::<_, Anything>(insert_on(marked, Note::<0>(9))))
        .unwrap();
    let mut bowl = builder.serve(Idle(0)).unwrap();
    let note = <Note<0> as ComponentType>::component_type();
    assert!(!bowl.settled().unwrap().has(note, marked), "there is nothing to complete");

    bowl.insert((Count::<0>(1),)).unwrap();
    let settled = bowl.settled().unwrap();
    assert!(matches!(settled.get(note, marked), Some(Fact::Note { slot: 0, value: 9 })));
}

#[test]
fn runs_are_counted_and_a_settled_bowl_runs_nothing() {
    let builder = BowlBuilder::<()>::new(true).system(first()).unwrap();
    let builder = builder.system(first()).unwrap();
    let mut bowl = builder.serve(Idle(0)).unwrap();
    bowl.insert((Count::<0>(1),)).unwrap();
    bowl.insert((Count::<0>(2),)).unwrap();
    assert!(bowl.settle().is_ok());
    let counts: Vec<u64> = bowl.profile_all().iter().map(|entry| entry.runs).collect();
    assert_eq!(counts, vec![2, 2]);

    assert!(bowl.settle().is_ok());
    let again: Vec<u64> = bowl.profile_all().iter().map(|entry| entry.runs).collect();
    assert_eq!(again, vec![2, 2]);
}

#[test]
fn systems_of_one_name_are_explained_apart() {
    let other = FunctionSystem {
        name: "first",
        params: vec![Param::Query(RowQuery::new(
            vec![QueryPart { component: kind(), mode: PartMode::Read }],
            vec![RowFilter::With(<Note<0> as ComponentType>::component_type())],
        ))],
    };
    let builder = BowlBuilder::<()>::new(true).system(first()).unwrap();
    let mut bowl = builder.system(other).unwrap().serve(Idle(0)).unwrap();
    bowl.insert((Count::<0>(1),)).unwrap();
    assert!(bowl.settle().is_ok());
    let reports = bowl.explain_all().unwrap();
    let rows: Vec<(&str, usize)> =
        reports.iter().map(|(name, report)| (*name, report.matched_rows)).collect();
    assert_eq!(rows, vec![("first", 1), ("first", 0)]);
}

#[test]
fn each_run_is_counted_once_for_its_system() {
    let builder = BowlBuilder::<()>::new(true).system(first()).unwrap();
    let mut bowl = builder.plugin(&Counting { filters: Vec::new() }).unwrap();
    bowl = bowl.system(first()).unwrap();
    let mut bowl = bowl.serve(Idle(0)).unwrap();
    bowl.insert((Count::<0>(1),)).unwrap();
    assert!(bowl.settle().is_ok());
    let profile = bowl.profile_all();
    let counts: Vec<(&str, u64)> = profile.iter().map(|entry| (entry.name, entry.runs)).collect();
    assert_eq!(counts, vec![("first", 1), ("counting", 1), ("first", 1)]);
}
