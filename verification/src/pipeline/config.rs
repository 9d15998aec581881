//! How systems are registered: what they run after, and what they insert on
//! completion.

use crate::commands::Bundle;
use crate::component::{Component, ComponentType};
use crate::entity::Entity;
use crate::invocation::SystemId;
use crate::pipeline::commands::{share_values, shared, shared_facts, CommandOp, Commands, OpModel};
use crate::pipeline::run::added;
use std::sync::Arc;
use vstd::prelude::*;

verus! {

/// A registered system.
#[derive(Debug, Clone, Copy, PartialEq, Eq, Hash, Structural)]
pub struct SystemHandle(pub SystemId);

/// What runs once a system has run for at least one row.
/// It may have a state of its own, like a system.
pub trait CompleteCallback<C: Component>: Sized {
    /// Whether the callback can write `ops`.
    open spec fn writes(&self, ops: Seq<OpModel<C>>) -> bool {
        true
    }

    /// Runs the callback. What it writes goes behind what is buffered already.
    fn run(&self, commands: &mut Commands<C>)
        ensures
            added(old(commands)@, final(commands)@) matches Some(ops) && self.writes(ops),
    ;
}

/// The callbacks that insert something.
pub enum Callback<C> {
    /// Insert components on a fresh entity.
    Insert(Vec<Arc<C>>),
    /// Insert a component on an entity.
    InsertOn(Entity, Arc<C>),
}

impl<C: Component> CompleteCallback<C> for Callback<C> {
    open spec fn writes(&self, ops: Seq<OpModel<C>>) -> bool {
        ops == match *self {
            Callback::Insert(values) => seq![OpModel::<C>::Spawn(shared_facts(values@))],
            Callback::InsertOn(entity, value) => seq![OpModel::<C>::Insert(entity, value.model())],
        }
    }

    fn run(&self, commands: &mut Commands<C>) {
        match self {
            Callback::Insert(values) => {
                commands.push(CommandOp::Spawn(share_values(values)));
            },
            Callback::InsertOn(entity, value) => {
                commands.push(CommandOp::Insert(*entity, Arc::clone(value)));
            },
        }
        proof {
            let before = old(commands)@;
            let ops = commands@.skip(before.len() as int);
            assert(commands@.take(before.len() as int) =~= before);
            assert(ops =~= seq![commands@.last()]);
        }
    }
}

/// Inserts a bundle on a fresh entity when the system completes.
pub fn insert<B: Bundle>(bundle: B) -> (callback: Callback<B::Universe>)
    ensures
        forall|ops: Seq<OpModel<B::Universe>>| #[trigger]
            callback.writes(ops) <==> ops == seq![OpModel::<B::Universe>::Spawn(bundle.facts())],
{
    Callback::Insert(shared(bundle.into_values()))
}

/// Inserts a component on `entity` when the system completes.
pub fn insert_on<T: ComponentType>(entity: Entity, component: T) -> (callback: Callback<
    T::Universe,
>)
    ensures
        forall|ops: Seq<OpModel<T::Universe>>| #[trigger]
            callback.writes(ops) <==> ops == seq![
                OpModel::<T::Universe>::Insert(entity, component.meaning()),
            ],
{
    Callback::InsertOn(entity, Arc::new(component.erase()))
}

/// A system with what it runs after and what runs when it completes.
pub struct SystemConfig<S, K> {
    pub system: S,
    pub after: Vec<SystemHandle>,
    pub on_complete: Vec<K>,
}

/// What a configured system is.
#[verifier::reject_recursive_types(S)]
#[verifier::reject_recursive_types(K)]
pub struct ConfigModel<S, K> {
    pub system: S,
    pub after: Seq<SystemHandle>,
    pub on_complete: Seq<K>,
}

impl<S, K> View for SystemConfig<S, K> {
    type V = ConfigModel<S, K>;

    open spec fn view(&self) -> ConfigModel<S, K> {
        ConfigModel { system: self.system, after: self.after@, on_complete: self.on_complete@ }
    }
}

impl<S, K> SystemConfig<S, K> {
    /// A system on its own.
    pub fn new(system: S) -> (config: Self)
        ensures
            config@ == (ConfigModel {
                system,
                after: Seq::<SystemHandle>::empty(),
                on_complete: Seq::<K>::empty(),
            }),
    {
        SystemConfig { system, after: Vec::new(), on_complete: Vec::new() }
    }

    /// Runs the system after another one.
    pub fn run_after(self, system: SystemHandle) -> (config: Self)
        ensures
            config@ == (ConfigModel { after: self@.after.push(system), ..self@ }),
    {
        let mut config = self;
        config.after.push(system);
        config
    }

    /// Runs a callback once the system has run for at least one row.
    pub fn on_complete(self, callback: K) -> (config: Self)
        ensures
            config@ == (ConfigModel { on_complete: self@.on_complete.push(callback), ..self@ }),
    {
        let mut config = self;
        config.on_complete.push(callback);
        config
    }
}

/// Configuration of a system that is not configured yet.
pub trait SystemExt: Sized {
    /// Runs the system after another one.
    fn run_after<K>(self, system: SystemHandle) -> (config: SystemConfig<Self, K>)
        ensures
            config@ == (ConfigModel {
                system: self,
                after: seq![system],
                on_complete: Seq::<K>::empty(),
            }),
    {
        let mut after: Vec<SystemHandle> = Vec::new();
        after.push(system);
        assert(after@ =~= seq![system]);
        SystemConfig { system: self, after, on_complete: Vec::new() }
    }

    /// Runs a callback once the system has run for at least one row.
    fn on_complete<K>(self, callback: K) -> (config: SystemConfig<Self, K>)
        ensures
            config@ == (ConfigModel {
                system: self,
                after: Seq::<SystemHandle>::empty(),
                on_complete: seq![callback],
            }),
    {
        let mut on_complete: Vec<K> = Vec::new();
        on_complete.push(callback);
        assert(on_complete@ =~= seq![callback]);
        SystemConfig { system: self, after: Vec::new(), on_complete }
    }
}

impl<S> SystemExt for S {

}

/// Marks the registration of a bare system.
pub struct SystemMarker;

/// Marks the registration of a configured system.
pub struct SystemConfigMarker;

/// What can be registered as a system.
pub trait IntoSystemConfig<S, K, Marker>: Sized {
    /// The configured system.
    spec fn config(self) -> ConfigModel<S, K>;

    /// The configured system.
    fn into_system_config(self) -> (config: SystemConfig<S, K>)
        ensures
            config@ == self.config(),
    ;
}

impl<S, K> IntoSystemConfig<S, K, SystemMarker> for S {
    open spec fn config(self) -> ConfigModel<S, K> {
        ConfigModel { system: self, after: Seq::empty(), on_complete: Seq::empty() }
    }

    fn into_system_config(self) -> (config: SystemConfig<S, K>) {
        SystemConfig::new(self)
    }
}

impl<S, K> IntoSystemConfig<S, K, SystemConfigMarker> for SystemConfig<S, K> {
    open spec fn config(self) -> ConfigModel<S, K> {
        self@
    }

    fn into_system_config(self) -> (config: SystemConfig<S, K>) {
        self
    }
}

} // verus!
