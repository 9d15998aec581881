//! Describing systems for registration: wrappers, callbacks, and the systems
//! that come with the library.

use crate::binding::binding_error;
use crate::commands::{BufferModel, Commands, EntityAllocator, OpModel};
use crate::component::{
    anchors_current, ComponentId, ComponentType, DerivedFrom, RelationshipTarget,
};
use crate::declare::{Anything, DeclarationList};
use crate::entity::Entity;
use crate::invocation::{Invocation, SystemId, SystemInvocation};
use crate::model::{sorted_keys, WorldModel};
use crate::param::{params_view, BindingError, Param};
use crate::registry::{BoxedSystem, SystemModel};
use crate::system::{OutputModel, Phase, SystemOutput, Wrapper};
use crate::world::{as_entities, World};
use std::marker::PhantomData;
use vstd::pervasive::cloned;
use vstd::prelude::*;

verus! {

/// Distinguishes plain systems among the things that can be registered.
pub struct FunctionSystemMarker;

/// Distinguishes systems with a start hook.
pub struct OnStartMarker;

/// Distinguishes systems with a completion hook.
pub struct OnCompleteMarker;

/// Distinguishes systems with a settled hook.
pub struct OnSettledMarker;

/// Distinguishes systems that were given a phase.
pub struct RunDuringMarker;

/// Converts a description into a registered system, and hands over the callbacks of
/// its hooks. The marker tells the kinds of description apart.
pub trait IntoSystem<K, Marker>: Sized {
    /// What registration makes of the description.
    spec fn registered(self, id: SystemId) -> Result<SystemModel, BindingError>;

    /// The callbacks of the hooks around the system, from the innermost out.
    spec fn callbacks(self) -> Seq<K>;

    /// Registers the description under `id`.
    fn into_system(self, id: SystemId) -> (system: Result<(BoxedSystem, Vec<K>), BindingError>)
        ensures
            match system {
                Ok((system, callbacks)) => {
                    &&& system.wf()
                    &&& self.registered(id) == Ok::<SystemModel, BindingError>(system@)
                    &&& callbacks@ == self.callbacks()
                    &&& callbacks@.len() == system@.wrappers.len()
                },
                Err(error) => self.registered(id) == Err::<SystemModel, BindingError>(error),
            },
    ;
}

/// A plain system: its name and the parameters its function takes.
#[derive(Debug)]
pub struct FunctionSystem {
    pub name: &'static str,
    pub params: Vec<Param>,
}

impl<K> IntoSystem<K, FunctionSystemMarker> for FunctionSystem {
    open spec fn registered(self, id: SystemId) -> Result<SystemModel, BindingError> {
        match binding_error(params_view(self.params@)) {
            Some(error) => Err(error),
            None => Ok(SystemModel::fresh(id, self.name@, params_view(self.params@))),
        }
    }

    open spec fn callbacks(self) -> Seq<K> {
        Seq::empty()
    }

    fn into_system(self, id: SystemId) -> (system: Result<(BoxedSystem, Vec<K>), BindingError>) {
        match BoxedSystem::new(id, self.name, self.params) {
            Ok(system) => Ok((system, Vec::new())),
            Err(error) => Err(error),
        }
    }
}

/// Callback run around system batches. It declares its outputs through the type
/// of its buffer, like a system.
///
/// An implementation says with [`SystemCallback::leaves`] what a run can do, as far
/// as it promises anything.
pub trait SystemCallback<C: RelationshipTarget, S> {
    /// Whether a run that finds the buffer `before` and the next free id `ids` can
    /// leave the buffer `after` and the next free id `next`.
    open spec fn leaves(
        &self,
        before: BufferModel<C>,
        ids: u64,
        after: BufferModel<C>,
        next: u64,
    ) -> bool {
        true
    }

    /// Fills the buffer.
    fn run(&self, commands: &mut Commands<C, S>, allocator: &mut EntityAllocator)
        ensures
            self.leaves(
                old(commands)@,
                old(allocator)@,
                final(commands)@,
                final(allocator)@,
            ),
    ;
}

/// The callback that does nothing.
impl<C: RelationshipTarget, S> SystemCallback<C, S> for () {
    open spec fn leaves(
        &self,
        before: BufferModel<C>,
        ids: u64,
        after: BufferModel<C>,
        next: u64,
    ) -> bool {
        after == before && next == ids
    }

    fn run(&self, _commands: &mut Commands<C, S>, _allocator: &mut EntityAllocator) {
    }
}

/// System wrapper produced by [`SystemExt::on_start`].
pub struct OnStart<S, F, D> {
    pub system: S,
    pub callback: F,
    pub _declares: PhantomData<D>,
}

/// System wrapper produced by [`SystemExt::on_complete`].
pub struct OnComplete<S, F, D> {
    pub system: S,
    pub callback: F,
    pub _declares: PhantomData<D>,
}

/// System wrapper produced by [`SystemExt::on_settled`].
pub struct OnSettled<S, F, D> {
    pub system: S,
    pub callback: F,
    pub _declares: PhantomData<D>,
}

/// System wrapper produced by [`SystemExt::run_during`].
pub struct RunDuring<S> {
    pub system: S,
    pub phase: Phase,
}

/// Extension methods for system configuration.
pub trait SystemExt: Sized {
    /// Runs `callback` once before this system starts processing the invocations
    /// that are invalid for the current snapshot.
    fn on_start<F, D>(self, callback: F) -> (wrapped: OnStart<Self, F, D>)
        ensures
            wrapped.system == self,
            wrapped.callback == callback,
    {
        OnStart { system: self, callback, _declares: PhantomData }
    }

    /// Runs `callback` once after this system has completed the invocations that
    /// were invalid for the current snapshot.
    fn on_complete<F, D>(self, callback: F) -> (wrapped: OnComplete<Self, F, D>)
        ensures
            wrapped.system == self,
            wrapped.callback == callback,
    {
        OnComplete { system: self, callback, _declares: PhantomData }
    }

    /// Runs `callback` after normal evaluation has stopped producing tracked
    /// changes, but before the caller observes results. It may run more than
    /// once while the bowl tries to settle, so it should be idempotent.
    fn on_settled<F, D>(self, callback: F) -> (wrapped: OnSettled<Self, F, D>)
        ensures
            wrapped.system == self,
            wrapped.callback == callback,
    {
        OnSettled { system: self, callback, _declares: PhantomData }
    }

    /// Runs this system during `phase` instead of [`Phase::Evaluate`].
    fn run_during(self, phase: Phase) -> (wrapped: RunDuring<Self>)
        ensures
            wrapped.system == self,
            wrapped.phase == phase,
    {
        RunDuring { system: self, phase }
    }
}

impl<S> SystemExt for S {

}

/// A registered description inside one more hook.
pub open spec fn hooked(
    inner: Result<SystemModel, BindingError>,
    wrapper: Wrapper,
    declared: Option<Seq<ComponentId>>,
) -> Result<SystemModel, BindingError> {
    match inner {
        Ok(system) => Ok(system.wrapped(wrapper, declared)),
        Err(error) => Err(error),
    }
}

impl<S, K, D, M> IntoSystem<K, (OnStartMarker, M)> for OnStart<S, K, D> where
    S: IntoSystem<K, M>,
    D: DeclarationList,
 {
    open spec fn registered(self, id: SystemId) -> Result<SystemModel, BindingError> {
        hooked(self.system.registered(id), Wrapper::Start, D::declaration())
    }

    open spec fn callbacks(self) -> Seq<K> {
        self.system.callbacks().push(self.callback)
    }

    fn into_system(self, id: SystemId) -> (system: Result<(BoxedSystem, Vec<K>), BindingError>) {
        match self.system.into_system(id) {
            Ok((system, callbacks)) => {
                let mut callbacks = callbacks;
                callbacks.push(self.callback);
                Ok((system.wrapped(Wrapper::Start, D::declared_types()), callbacks))
            },
            Err(error) => Err(error),
        }
    }
}

impl<S, K, D, M> IntoSystem<K, (OnCompleteMarker, M)> for OnComplete<S, K, D> where
    S: IntoSystem<K, M>,
    D: DeclarationList,
 {
    open spec fn registered(self, id: SystemId) -> Result<SystemModel, BindingError> {
        hooked(self.system.registered(id), Wrapper::Complete, D::declaration())
    }

    open spec fn callbacks(self) -> Seq<K> {
        self.system.callbacks().push(self.callback)
    }

    fn into_system(self, id: SystemId) -> (system: Result<(BoxedSystem, Vec<K>), BindingError>) {
        match self.system.into_system(id) {
            Ok((system, callbacks)) => {
                let mut callbacks = callbacks;
                callbacks.push(self.callback);
                Ok((system.wrapped(Wrapper::Complete, D::declared_types()), callbacks))
            },
            Err(error) => Err(error),
        }
    }
}

impl<S, K, D, M> IntoSystem<K, (OnSettledMarker, M)> for OnSettled<S, K, D> where
    S: IntoSystem<K, M>,
    D: DeclarationList,
 {
    open spec fn registered(self, id: SystemId) -> Result<SystemModel, BindingError> {
        hooked(self.system.registered(id), Wrapper::Settled, D::declaration())
    }

    open spec fn callbacks(self) -> Seq<K> {
        self.system.callbacks().push(self.callback)
    }

    fn into_system(self, id: SystemId) -> (system: Result<(BoxedSystem, Vec<K>), BindingError>) {
        match self.system.into_system(id) {
            Ok((system, callbacks)) => {
                let mut callbacks = callbacks;
                callbacks.push(self.callback);
                Ok((system.wrapped(Wrapper::Settled, D::declared_types()), callbacks))
            },
            Err(error) => Err(error),
        }
    }
}

impl<S, K, M> IntoSystem<K, (RunDuringMarker, M)> for RunDuring<S> where S: IntoSystem<K, M> {
    open spec fn registered(self, id: SystemId) -> Result<SystemModel, BindingError> {
        match self.system.registered(id) {
            Ok(system) => Ok(SystemModel { phase: self.phase, ..system }),
            Err(error) => Err(error),
        }
    }

    open spec fn callbacks(self) -> Seq<K> {
        self.system.callbacks()
    }

    fn into_system(self, id: SystemId) -> (system: Result<(BoxedSystem, Vec<K>), BindingError>) {
        match self.system.into_system(id) {
            Ok((system, callbacks)) => Ok((system.run_during(self.phase), callbacks)),
            Err(error) => Err(error),
        }
    }
}

/// What a hook of `system` leaves in its buffer, owned by the system without row
/// keys.
pub fn hook_buffer<C: RelationshipTarget, D>(system: SystemId, commands: Commands<C, D>) -> (output:
    SystemOutput<C>)
    ensures
        output@ == (OutputModel {
            owner: Invocation { system, keys: Seq::empty() },
            ops: commands@.ops,
        }),
{
    let keys: Vec<Entity> = Vec::new();
    let owner = SystemInvocation::new(system, keys);
    assert(owner@.keys =~= Seq::<Entity>::empty());
    SystemOutput { owner, commands: commands.take() }
}

/// Runs a hook: the callback fills a fresh buffer, and what it left there is the
/// output, whose owner is the system without row keys.
pub fn hook_output<C: RelationshipTarget, D, F: SystemCallback<C, D>>(
    callback: &F,
    system: SystemId,
    spawn_slots: Vec<Entity>,
    allocator: &mut EntityAllocator,
) -> (output: SystemOutput<C>)
    ensures
        output@.owner == (Invocation { system, keys: Seq::empty() }),
        exists|filled: BufferModel<C>| #[trigger]
            callback.leaves(
                (BufferModel {
                    ops: Seq::empty(),
                    slots: spawn_slots@,
                    cursor: 0,
                }),
                old(allocator)@,
                filled,
                final(allocator)@,
            ) && output@.ops == filled.ops,
{
    let fresh: Commands<C, Anything> = Commands::new(spawn_slots);
    let mut commands: Commands<C, D> = fresh.retype();
    callback.run(&mut commands, allocator);
    let ghost filled = commands@;
    let output = hook_buffer(system, commands);
    assert(output@.ops == filled.ops);
    output
}

/// Completion callback that inserts a component on an entity.
pub struct InsertOn<T> {
    pub entity: Entity,
    pub component: T,
}

/// Builds a completion callback that inserts `component` on `entity`.
pub fn insert_on<T: ComponentType + Clone>(entity: Entity, component: T) -> (callback: InsertOn<T>)
    ensures
        callback.entity == entity,
        callback.component == component,
{
    InsertOn { entity, component }
}

impl<
    C: RelationshipTarget,
    S,
    T: ComponentType<Universe = C> + Clone,
> SystemCallback<C, S> for InsertOn<T> {
    open spec fn leaves(
        &self,
        before: BufferModel<C>,
        ids: u64,
        after: BufferModel<C>,
        next: u64,
    ) -> bool {
        &&& next == ids
        &&& exists|copy: T| #[trigger]
            cloned(self.component, copy) && after == (BufferModel {
                ops: before.ops.push(
                    OpModel::Insert { entity: self.entity, fact: copy.meaning() },
                ),
                ..before
            })
    }

    fn run(&self, commands: &mut Commands<C, S>, allocator: &mut EntityAllocator) {
        let copy = self.component.clone();
        assert(cloned(self.component, copy));
        commands.insert_value(self.entity, copy.erase());
    }
}

/// Read-only world metadata available to systems.
///
/// It exposes what revision-scoped cleanup needs, without allowing component
/// reads outside queries and views.
pub struct WorldMetaView<'a, C> {
    pub snapshot: &'a World<C>,
}

impl<'a, C: RelationshipTarget> WorldMetaView<'a, C> {
    /// Whether `derived_from` still matches the current revision of every source
    /// entity.
    pub fn is_current(&self, derived_from: &DerivedFrom) -> (current: bool)
        ensures
            current == anchors_current(
                derived_from@,
                self.snapshot@.anchor_revisions(derived_from@),
            ),
    {
        self.snapshot.is_current(derived_from)
    }
}

/// Whether `entity` carries a derived-from marker one of whose sources moved on.
pub open spec fn outdated<C: RelationshipTarget>(world: WorldModel<C>, entity: Entity) -> bool {
    match world.entry(C::anchor_kind(), entity) {
        Some(entry) => C::anchored(entry.value) matches Some(anchors) && !anchors_current(
            anchors,
            world.anchor_revisions(anchors),
        ),
        None => false,
    }
}

/// The removals of the outdated entities among `entities`, in order.
pub open spec fn cleanup_ops<C: RelationshipTarget>(
    world: WorldModel<C>,
    entities: Seq<Entity>,
) -> Seq<OpModel<C>>
    decreases entities.len(),
{
    if entities.len() == 0 {
        Seq::empty()
    } else {
        let rest = cleanup_ops(world, entities.drop_last());
        if outdated(world, entities.last()) {
            rest.push(OpModel::RemoveEntity { entity: entities.last() })
        } else {
            rest
        }
    }
}

/// Cleanup system for entities tagged with a derived-from marker: removes those
/// whose source entities changed since insertion. Register it during
/// [`Phase::Settle`].
pub fn cleanup_stale_derived<C: RelationshipTarget, S>(
    meta: &WorldMetaView<C>,
    commands: &mut Commands<C, S>,
)
    ensures
        final(commands)@ == (BufferModel {
            ops: old(commands)@.ops + cleanup_ops(
                meta.snapshot@,
                as_entities(
                    sorted_keys(meta.snapshot@.column(C::anchor_kind()).entries.dom()),
                ),
            ),
            ..old(commands)@
        }),
{
    let kind = marker_kind::<C>();
    let entities = meta.snapshot.entities_with(kind);
    let ghost before = commands@;
    let mut i: usize = 0;
    assert(entities@.take(0) =~= Seq::<Entity>::empty());
    assert(before.ops + Seq::<OpModel<C>>::empty() =~= before.ops);
    while i < entities.len()
        invariant
            i <= entities@.len(),
            kind == C::anchor_kind(),
            commands@ == (BufferModel {
                ops: before.ops + cleanup_ops(meta.snapshot@, entities@.take(i as int)),
                ..before
            }),
        decreases entities@.len() - i,
    {
        let entity = entities[i];
        assert(entities@.take(i + 1).drop_last() =~= entities@.take(i as int));
        let ghost rest = cleanup_ops(meta.snapshot@, entities@.take(i as int));
        let stale = match meta.snapshot.get(kind, entity) {
            Some(value) => match value.derived_from() {
                Some(derived) => !meta.is_current(&derived),
                None => false,
            },
            None => false,
        };
        assert(stale == outdated(meta.snapshot@, entity));
        if stale {
            commands.remove(entity);
            proof {
                crate::entity::lemma_entity_is_its_id(Entity::of(entity.id()), entity);
                let op: OpModel<C> = OpModel::RemoveEntity { entity };
                assert((before.ops + rest).push(op) =~= before.ops + rest.push(op));
            }
        }
        i = i + 1;
    }
    assert(entities@.take(entities@.len() as int) =~= entities@);
}

fn marker_kind<C: RelationshipTarget>() -> (kind: ComponentId)
    ensures
        kind == C::anchor_kind(),
{
    let sources: Vec<Entity> = Vec::new();
    let marker = C::from_derived(DerivedFrom::many(sources));
    let kind = marker.component_id();
    proof {
        C::anchor_laws(crate::component::uncaptured(sources@));
    }
    kind
}

} // verus!
