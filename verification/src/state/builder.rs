//! Building a bowl: schema fragments and systems first, then a sealed state.

use super::{numbered, State, StateModel};
use crate::bowl::{Bowl, BowlModel};
use crate::component::{ComponentId, RelationshipTarget};
use crate::config::{IntoSystem, SystemCallback};
use crate::evaluation::{CommitLimit, DEFAULT_COMMIT_LIMIT};
use crate::declare::{shape_kinds, Anything, Schema, ShapeDesc, ShapePartDesc};
use crate::invocation::SystemId;
use crate::keys::lists;
use crate::model::WorldModel;
use crate::param::BindingError;
use crate::registry::{systems_view, BoxedSystem, SystemModel};
use crate::state::hooks::{HookTable, RowBodies, Served};
use crate::system::SystemStats;
use vstd::prelude::*;

verus! {

/// `kinds` with `kind` appended unless it is there already.
pub open spec fn with_kind(kinds: Seq<ComponentId>, kind: ComponentId) -> Seq<ComponentId> {
    if kinds.contains(kind) {
        kinds
    } else {
        kinds.push(kind)
    }
}

/// `kinds` with each of `more` appended unless it is there already.
pub open spec fn with_kinds(kinds: Seq<ComponentId>, more: Seq<ComponentId>) -> Seq<ComponentId>
    decreases more.len(),
{
    if more.len() == 0 {
        kinds
    } else {
        with_kind(with_kinds(kinds, more.drop_last()), more.last())
    }
}

/// The component types that a schema speaks of, each once, in the order in which
/// they first occur.
pub open spec fn universe_of(shapes: Seq<ShapeDesc>) -> Seq<ComponentId>
    decreases shapes.len(),
{
    if shapes.len() == 0 {
        Seq::empty()
    } else {
        with_kinds(
            with_kinds(
                universe_of(shapes.drop_last()),
                shape_kinds(shapes.last().required@),
            ),
            shape_kinds(shapes.last().optional@),
        )
    }
}

fn add_kinds(kinds: &mut Vec<ComponentId>, parts: &Vec<ShapePartDesc>)
    ensures
        final(kinds)@ == with_kinds(old(kinds)@, shape_kinds(parts@)),
{
    let ghost before = kinds@;
    let ghost all = shape_kinds(parts@);
    let mut i: usize = 0;
    assert(all.take(0) =~= Seq::<ComponentId>::empty());
    while i < parts.len()
        invariant
            i <= parts@.len(),
            all == shape_kinds(parts@),
            kinds@ == with_kinds(before, all.take(i as int)),
        decreases parts@.len() - i,
    {
        assert(all.take(i + 1).drop_last() =~= all.take(i as int));
        let kind = parts[i].component;
        let known = lists(kinds, kind);
        if !known {
            kinds.push(kind);
        }
        i = i + 1;
    }
    assert(all.take(all.len() as int) =~= all);
}

/// The component types that a schema speaks of.
pub fn schema_universe(shapes: &Vec<ShapeDesc>) -> (universe: Vec<ComponentId>)
    ensures
        universe@ == universe_of(shapes@),
{
    let mut universe: Vec<ComponentId> = Vec::new();
    let mut i: usize = 0;
    assert(shapes@.take(0) =~= Seq::<ShapeDesc>::empty());
    while i < shapes.len()
        invariant
            i <= shapes@.len(),
            universe@ == universe_of(shapes@.take(i as int)),
        decreases shapes@.len() - i,
    {
        assert(shapes@.take(i + 1).drop_last() =~= shapes@.take(i as int));
        add_kinds(&mut universe, &shapes[i].required);
        add_kinds(&mut universe, &shapes[i].optional);
        i = i + 1;
    }
    assert(shapes@.take(shapes@.len() as int) =~= shapes@);
    universe
}

/// Why a bowl cannot be built.
#[derive(Debug, Clone, Copy, PartialEq, Eq, Structural)]
pub enum BuildError {
    /// The schema speaks of more component types than presence bits can number.
    TooManyComponents,
}

/// System registration handle passed to [`Plugin::build`]. `K` is the type of the
/// callbacks of hooks.
#[derive(Debug)]
pub struct Registrar<K> {
    systems: Vec<BoxedSystem>,
    hooks: HookTable<K>,
}

/// Whether every system has one callback for each of its hooks.
pub open spec fn fitted<K>(systems: Seq<SystemModel>, hooks: Seq<Seq<K>>) -> bool {
    &&& hooks.len() == systems.len()
    &&& forall|i: int|
        0 <= i < systems.len() ==> (#[trigger] hooks[i]).len() == systems[i].wrappers.len()
}

impl<K> Registrar<K> {
    /// The systems registered so far, each numbered by its position.
    pub closed spec fn registered(self) -> Seq<SystemModel> {
        systems_view(self.systems@)
    }

    /// The callbacks of the hooks of each system, from the innermost out.
    pub closed spec fn hooked(self) -> Seq<Seq<K>> {
        self.hooks@
    }

    /// Every system is numbered by its position, and has one callback for each of
    /// its hooks.
    pub closed spec fn wf(&self) -> bool {
        &&& numbered(self.registered())
        &&& fitted(self.registered(), self.hooked())
    }

    /// A handle with nothing registered.
    pub fn new() -> (registrar: Self)
        ensures
            registrar.wf(),
            registrar.registered() == Seq::<SystemModel>::empty(),
            registrar.hooked() == Seq::<Seq<K>>::empty(),
    {
        let registrar = Registrar { systems: Vec::new(), hooks: HookTable::new() };
        assert(registrar.registered() =~= Seq::<SystemModel>::empty());
        registrar
    }

    /// Registers a system with the callbacks of its hooks. Systems run in
    /// registration order.
    pub fn system<M, S: IntoSystem<K, M>>(&mut self, system: S) -> (outcome: Result<
        (),
        BindingError,
    >)
        requires
            old(self).wf(),
        ensures
            final(self).wf(),
            ({
                let id = SystemId(old(self).registered().len() as usize);
                match outcome {
                    Ok(_) => {
                        &&& system.registered(id) matches Ok(model) && final(self).registered()
                            == old(self).registered().push(SystemModel { id, ..model })
                        &&& final(self).hooked() == old(self).hooked().push(system.callbacks())
                    },
                    Err(error) => {
                        &&& system.registered(id) == Err::<SystemModel, BindingError>(error)
                        &&& final(self).registered() == old(self).registered()
                        &&& final(self).hooked() == old(self).hooked()
                    },
                }
            }),
    {
        let ghost before = self.registered();
        let ghost held = self.hooked();
        let id = SystemId(self.systems.len());
        let (mut system, callbacks) = match system.into_system(id) {
            Ok(registered) => registered,
            Err(error) => {
                return Err(error);
            },
        };
        system.id = id;
        self.systems.push(system);
        self.hooks.push(callbacks);
        proof {
            let now = self.registered();
            assert(now =~= before.push(system@));
            assert forall|i: int| 0 <= i < now.len() implies (#[trigger] now[i]).id == SystemId(
                i as usize,
            ) && now[i].sound() by {
                if i < before.len() {
                    assert(now[i] == before[i]);
                }
            }
            assert forall|i: int| 0 <= i < now.len() implies (#[trigger] self.hooked()[i]).len()
                == now[i].wrappers.len() by {
                if i < before.len() {
                    assert(held[i].len() == before[i].wrappers.len());
                }
            }
        }
        Ok(())
    }
}

/// A reusable unit of bowl content: entity shapes plus the systems that produce
/// and consume them.
pub trait Plugin<K> {
    /// Entity shapes this plugin contributes to the schema.
    fn shapes(&self) -> Vec<ShapeDesc>;

    /// Registers the plugin's systems behind those that are registered already.
    fn build(&self, registrar: &mut Registrar<K>) -> (outcome: Result<(), BindingError>)
        requires
            old(registrar).wf(),
        ensures
            final(registrar).wf(),
            old(registrar).registered().is_prefix_of(final(registrar).registered()),
            old(registrar).hooked().is_prefix_of(final(registrar).hooked()),
    ;
}

/// Builds a bowl: the schema universe is closed before any store exists, and the
/// system set is sealed. `K` is the type of the callbacks of hooks.
#[derive(Debug)]
pub struct BowlBuilder<K> {
    shapes: Vec<ShapeDesc>,
    plugin_shapes: Vec<ShapeDesc>,
    registrar: Registrar<K>,
    checked: bool,
}

/// What a [`BowlBuilder`] has collected.
#[verifier::ext_equal]
#[verifier::reject_recursive_types(K)]
pub struct BuilderModel<K> {
    /// Schema fragments, in the order in which they were added.
    pub shapes: Seq<ShapeDesc>,
    /// Shapes of plugins, in the order in which they were added.
    pub plugin_shapes: Seq<ShapeDesc>,
    pub systems: Seq<SystemModel>,
    /// The callbacks of the hooks of each system, from the innermost out.
    pub hooks: Seq<Seq<K>>,
    pub checked: bool,
}

impl<K> View for BowlBuilder<K> {
    type V = BuilderModel<K>;

    closed spec fn view(&self) -> BuilderModel<K> {
        BuilderModel {
            shapes: self.shapes@,
            plugin_shapes: self.plugin_shapes@,
            systems: self.registrar.registered(),
            hooks: self.registrar.hooked(),
            checked: self.checked,
        }
    }
}

impl<C: RelationshipTarget> StateModel<C> {
    /// The state of a bowl that was just built.
    pub open spec fn built<K>(builder: BuilderModel<K>) -> StateModel<C> {
        let fresh = StateModel::initial(builder.checked);
        let shapes = builder.shapes + builder.plugin_shapes;
        let sealed = if shapes.len() == 0 {
            fresh
        } else {
            StateModel {
                world: WorldModel {
                    universe: Some(universe_of(shapes).to_set()),
                    ..fresh.world
                },
                schema: Some(shapes),
                ..fresh
            }
        };
        if builder.systems.len() == 0 {
            sealed
        } else {
            (StateModel {
                systems: builder.systems,
                counters: Seq::new(builder.systems.len(), |i: int| SystemStats::zero()),
                ..sealed
            }).pended()
        }
    }
}

impl<K> BowlBuilder<K> {
    /// Every system is numbered by its position, and has one callback for each of
    /// its hooks.
    pub closed spec fn wf(&self) -> bool {
        self.registrar.wf()
    }

    /// Starts building a bowl. `checked` turns the checks on derived writes on.
    pub fn new(checked: bool) -> (builder: Self)
        ensures
            builder.wf(),
            builder@ == (BuilderModel::<K> {
                shapes: Seq::empty(),
                plugin_shapes: Seq::empty(),
                systems: Seq::empty(),
                hooks: Seq::empty(),
                checked,
            }),
    {
        BowlBuilder {
            shapes: Vec::new(),
            plugin_shapes: Vec::new(),
            registrar: Registrar::new(),
            checked,
        }
    }

    /// Adds a schema fragment.
    pub fn shapes(self, shapes: Vec<ShapeDesc>) -> (builder: Self)
        requires
            self.wf(),
        ensures
            builder.wf(),
            builder@ == (BuilderModel { shapes: self@.shapes + shapes@, ..self@ }),
    {
        let mut builder = self;
        let mut shapes = shapes;
        builder.shapes.append(&mut shapes);
        builder
    }

    /// Adds the fragment of a schema type.
    pub fn schema<S: Schema>(self) -> (builder: Self)
        requires
            self.wf(),
        ensures
            builder.wf(),
            exists|more: Vec<ShapeDesc>| #[trigger]
                call_ensures(S::shapes, (), more) && builder@ == (BuilderModel {
                    shapes: self@.shapes + more@,
                    ..self@
                }),
    {
        let shapes = S::shapes();
        assert(call_ensures(S::shapes, (), shapes));
        self.shapes(shapes)
    }

    /// Registers a system at this position in build order.
    pub fn system<M, S: IntoSystem<K, M>>(self, system: S) -> (builder: Result<Self, BindingError>)
        requires
            self.wf(),
        ensures
            ({
                let id = SystemId(self@.systems.len() as usize);
                match builder {
                    Ok(builder) => {
                        &&& builder.wf()
                        &&& system.registered(id) matches Ok(model) && builder@ == (BuilderModel {
                            systems: self@.systems.push(SystemModel { id, ..model }),
                            hooks: self@.hooks.push(system.callbacks()),
                            ..self@
                        })
                    },
                    Err(error) => system.registered(id) == Err::<SystemModel, BindingError>(error),
                }
            }),
    {
        let mut builder = self;
        match builder.registrar.system(system) {
            Ok(_) => Ok(builder),
            Err(error) => Err(error),
        }
    }

    /// Adds what a plugin contributed: the shapes it returned, and the systems
    /// that stand registered after its build. A plugin that failed to register
    /// one of its systems fails the builder.
    pub fn contributed(
        self,
        shapes: Vec<ShapeDesc>,
        registrar: Registrar<K>,
        outcome: Result<(), BindingError>,
    ) -> (builder: Result<Self, BindingError>)
        requires
            registrar.wf(),
            self@.systems.is_prefix_of(registrar.registered()),
            self@.hooks.is_prefix_of(registrar.hooked()),
        ensures
            match outcome {
                Ok(_) => builder matches Ok(builder) && builder.wf() && builder@ == (BuilderModel {
                    plugin_shapes: self@.plugin_shapes + shapes@,
                    systems: registrar.registered(),
                    hooks: registrar.hooked(),
                    ..self@
                }),
                Err(error) => builder == Err::<Self, BindingError>(error),
            },
    {
        match outcome {
            Ok(_) => {
                let mut builder = self;
                let mut shapes = shapes;
                builder.plugin_shapes.append(&mut shapes);
                builder.registrar = registrar;
                Ok(builder)
            },
            Err(error) => Err(error),
        }
    }

    /// Adds a plugin: its shapes join the schema, and its systems register at
    /// this position in build order. What they are is the plugin's choice: its
    /// build is handed the systems registered so far, and what it leaves stands.
    /// Those stay registered, before the plugin's. The builder fails exactly when the
    /// plugin's build does, with its error.
    pub fn plugin<P: Plugin<K>>(self, plugin: &P) -> (builder: Result<Self, BindingError>)
        requires
            self.wf(),
        ensures
            exists|
                more: Vec<ShapeDesc>,
                registrar: &mut Registrar<K>,
                outcome: Result<(), BindingError>,
            |
                #![trigger call_ensures(P::shapes, (plugin,), more), call_ensures(P::build, (plugin, registrar), outcome)]
                call_ensures(P::shapes, (plugin,), more) && call_ensures(
                    P::build,
                    (plugin, registrar),
                    outcome,
                ) && registrar.wf() && registrar.registered() == self@.systems && registrar.hooked()
                    == self@.hooks && match outcome {
                    Ok(_) => builder matches Ok(builder) && builder.wf() && builder@ == (
                    BuilderModel {
                        plugin_shapes: self@.plugin_shapes + more@,
                        systems: final(registrar).registered(),
                        hooks: final(registrar).hooked(),
                        ..self@
                    }),
                    Err(error) => builder == Err::<Self, BindingError>(error),
                },
            builder matches Ok(builder) ==> {
                &&& self@.systems.is_prefix_of(builder@.systems)
                &&& self@.hooks.is_prefix_of(builder@.hooks)
            },
    {
        let mut builder = self;
        let shapes = plugin.shapes();
        assert(call_ensures(P::shapes, (plugin,), shapes));
        let mut registrar = Registrar::new();
        std::mem::swap(&mut registrar, &mut builder.registrar);
        let outcome = plugin.build(&mut registrar);
        builder.contributed(shapes, registrar, outcome)
    }

    /// Seals and constructs the bowl: unions every schema fragment, lays out the
    /// presence bits, and takes over the systems. Without a schema fragment the
    /// bowl has no schema. The callbacks of the hooks are handed out beside it.
    pub fn build<C: RelationshipTarget>(self) -> (state: Result<
        (State<C>, HookTable<K>),
        BuildError,
    >)
        requires
            self.wf(),
        ensures
            match state {
                Ok((state, hooks)) => {
                    &&& state.wf()
                    &&& state@ == StateModel::<C>::built(self@)
                    &&& hooks@ == self@.hooks
                    &&& fitted(state@.systems, hooks@)
                    &&& universe_of(self@.shapes + self@.plugin_shapes).len() <= u32::MAX
                },
                Err(error) => error == BuildError::TooManyComponents && universe_of(
                    self@.shapes + self@.plugin_shapes,
                ).len() > u32::MAX,
            },
    {
        let BowlBuilder { mut shapes, mut plugin_shapes, registrar, checked } = self;
        let ghost all = shapes@ + plugin_shapes@;
        shapes.append(&mut plugin_shapes);
        assert(shapes@ =~= all);
        let mut state: State<C> = State::new(checked);
        if shapes.len() > 0 {
            let universe = schema_universe(&shapes);
            if universe.len() > u32::MAX as usize {
                return Err(BuildError::TooManyComponents);
            }
            assert(state.world@.stores.dom() =~= Set::<ComponentId>::empty());
            state.snapshot_cache = None;
            state.world.init_presence(&universe);
            state.schema = Some(shapes);
        }
        let Registrar { systems, hooks } = registrar;
        let any = systems.len() > 0;
        let ghost models = systems_view(systems@);
        assert(numbered(models));
        let count = systems.len();
        let mut stats: Vec<SystemStats> = Vec::new();
        while stats.len() < count
            invariant
                stats@.len() <= count,
                stats@ =~= Seq::new(stats@.len(), |i: int| SystemStats::zero()),
            decreases count - stats@.len(),
        {
            stats.push(SystemStats::new());
        }
        state.systems = systems;
        state.stats = stats;
        if any {
            state.enqueue_next_generation();
        }
        proof {
            assert(state@.systems == models);
            if !any {
                assert(models =~= Seq::<SystemModel>::empty());
                assert(state@.counters =~= Seq::<SystemStats>::empty());
            }
            assert(state@ =~= StateModel::<C>::built(self@));
        }
        Ok((state, hooks))
    }

    /// Seals and constructs the bowl around the bodies of its systems. Its hooks run
    /// the callbacks that were registered.
    pub fn serve<C: RelationshipTarget, R: RowBodies<C>>(self, rows: R) -> (bowl: Result<
        Bowl<C, Served<R, K>>,
        BuildError,
    >) where K: SystemCallback<C, Anything>
        requires
            self.wf(),
        ensures
            match bowl {
                Ok(bowl) => {
                    &&& bowl.wf()
                    &&& bowl@.bodies.rows == rows
                    &&& bowl@.bodies.hooks@ == self@.hooks
                    &&& bowl@ == (BowlModel {
                        state: StateModel::<C>::built(self@),
                        bodies: bowl@.bodies,
                        limit: CommitLimit::Max(DEFAULT_COMMIT_LIMIT),
                        dropped: Seq::empty(),
                        woken: Seq::empty(),
                    })
                    &&& fitted(bowl@.state.systems, bowl@.bodies.hooks@)
                    &&& universe_of(self@.shapes + self@.plugin_shapes).len() <= u32::MAX
                },
                Err(error) => error == BuildError::TooManyComponents && universe_of(
                    self@.shapes + self@.plugin_shapes,
                ).len() > u32::MAX,
            },
    {
        match self.build() {
            Ok((state, hooks)) => Ok(Bowl::new(state, Served { rows, hooks })),
            Err(error) => Err(error),
        }
    }
}

} // verus!
