//! Buffered writes issued by system invocations and by callers.
//!
//! Commands do not touch the world when they are issued: an invocation writes
//! into its own buffer, and the runner applies the buffer when the invocation is
//! committed.

use crate::component::{Component, ComponentId, ComponentType, RelationshipTarget};
use crate::declare::{Anything, DeclaredIn, IncrementOf, SpawnsAs};
use crate::entity::{Entity, Untyped};
use crate::invocation::{Invocation, SystemInvocation};
use crate::model::{Origin, SingletonConflict, WorldModel};
use crate::world::World;
use std::marker::PhantomData;
use vstd::prelude::*;

verus! {

/// The source of fresh entity ids that the command buffers of one world share.
#[derive(Debug)]
pub struct EntityAllocator {
    next: u64,
}

impl View for EntityAllocator {
    type V = u64;

    closed spec fn view(&self) -> u64 {
        self.next
    }
}

impl EntityAllocator {
    /// An allocator whose first id is `next`.
    pub fn new(next: u64) -> (allocator: Self)
        ensures
            allocator@ == next,
    {
        EntityAllocator { next }
    }

    /// Hands out the next id.
    pub fn allocate(&mut self) -> (entity: Entity)
        ensures
            entity.id() == old(self)@,
            final(self)@ == old(self)@.wrapping_add(1),
    {
        let entity = Entity::from_raw(self.next);
        self.next = self.next.wrapping_add(1);
        entity
    }

    /// The id that the next allocation hands out.
    pub fn next_entity(&self) -> (next: u64)
        ensures
            next == self@,
    {
        self.next
    }
}

/// The entity that the next spawn reserves: the recorded slot, or a fresh id
/// once the slots are used up.
pub open spec fn reserved(slots: Seq<Entity>, cursor: usize, next: u64) -> Entity {
    if cursor < slots.len() {
        slots[cursor as int]
    } else {
        Entity::of(next)
    }
}

/// The allocator's next id after that reservation.
pub open spec fn after_reserve(slots: Seq<Entity>, cursor: usize, next: u64) -> u64 {
    if cursor < slots.len() {
        next
    } else {
        next.wrapping_add(1)
    }
}

/// The slot after `cursor`.
pub open spec fn next_slot(cursor: usize) -> usize {
    if cursor == usize::MAX {
        cursor
    } else {
        (cursor + 1) as usize
    }
}

/// An operation produced by a system's command buffer.
#[derive(Debug)]
pub enum CommandOp<C> {
    /// Inserts a derived component on an entity.
    Insert { entity: Entity, value: C },
    /// Spawns a derived entity. A singleton bundle supersedes the reservation by
    /// the entity that already holds its key.
    Spawn { bundle: Vec<C>, reserved: Entity },
    /// Removes an entity and everything on it.
    RemoveEntity { entity: Entity },
    /// Removes one component from an entity.
    RemoveComponent { kind: ComponentId, entity: Entity },
}

/// What a [`CommandOp`] means.
#[verifier::ext_equal]
#[verifier::reject_recursive_types(C)]
pub enum OpModel<C: Component> {
    Insert { entity: Entity, fact: C::Model },
    Spawn { facts: Seq<C::Model>, reserved: Entity },
    RemoveEntity { entity: Entity },
    RemoveComponent { kind: ComponentId, entity: Entity },
}

/// What the values of a bundle mean.
pub open spec fn facts_of<C: Component>(values: Seq<C>) -> Seq<C::Model> {
    values.map_values(|value: C| value.model())
}

/// What a list of operations means.
pub open spec fn ops_view<C: Component>(ops: Seq<CommandOp<C>>) -> Seq<OpModel<C>> {
    ops.map_values(|op: CommandOp<C>| op@)
}

impl<C: Component> View for CommandOp<C> {
    type V = OpModel<C>;

    open spec fn view(&self) -> OpModel<C> {
        match self {
            CommandOp::Insert { entity, value } => OpModel::Insert {
                entity: *entity,
                fact: value.model(),
            },
            CommandOp::Spawn { bundle, reserved } => OpModel::Spawn {
                facts: facts_of(bundle@),
                reserved: *reserved,
            },
            CommandOp::RemoveEntity { entity } => OpModel::RemoveEntity { entity: *entity },
            CommandOp::RemoveComponent { kind, entity } => OpModel::RemoveComponent {
                kind: *kind,
                entity: *entity,
            },
        }
    }
}

impl<C: Component> OpModel<C> {
    /// Whether the operation is held back when a settle-phase system issues it.
    pub open spec fn deferred(self) -> bool {
        self is Insert || self is Spawn
    }
}

/// Why an operation was refused.
#[derive(Debug, Clone, Copy)]
pub enum ApplyError {
    /// A singleton component is registered on another entity.
    Conflict(SingletonConflict),
    /// A bundle carries more than one singleton key.
    SeveralSingletons,
}

/// The singleton keys of a bundle, in component order.
pub open spec fn singleton_keys<C: Component>(facts: Seq<C::Model>) -> Seq<ComponentId>
    decreases facts.len(),
{
    if facts.len() == 0 {
        Seq::empty()
    } else {
        let rest = singleton_keys::<C>(facts.drop_last());
        match C::singleton(C::kind(facts.last())) {
            Some(key) => rest.push(key),
            None => rest,
        }
    }
}

/// The outcome of an insert as the outcome of an operation.
pub open spec fn refused(verdict: Result<(), SingletonConflict>) -> Result<(), ApplyError> {
    match verdict {
        Ok(_) => Ok(()),
        Err(conflict) => Err(ApplyError::Conflict(conflict)),
    }
}

/// Inserts `facts` on one entity, in order; the first refusal ends it.
pub open spec fn insert_facts<C: RelationshipTarget>(
    world: WorldModel<C>,
    entity: Entity,
    facts: Seq<C::Model>,
    origin: Origin,
    owner: Option<Invocation>,
) -> (WorldModel<C>, Result<(), ApplyError>)
    decreases facts.len(),
{
    if facts.len() == 0 {
        (world, Ok(()))
    } else {
        let done = insert_facts(world, entity, facts.drop_last(), origin, owner);
        if done.1 is Err {
            done
        } else {
            (
                done.0.insert(entity, facts.last(), origin, owner),
                refused(done.0.verdict(entity, facts.last())),
            )
        }
    }
}

/// The entity that a spawn lands on: the one holding the bundle's singleton
/// key, else the reserved one.
pub open spec fn spawn_target<C: RelationshipTarget>(
    world: WorldModel<C>,
    facts: Seq<C::Model>,
    reserved: Entity,
) -> Entity {
    let keys = singleton_keys::<C>(facts);
    if keys.len() > 0 && world.singletons.contains_key(keys[0]) {
        Entity::of(world.singletons[keys[0]])
    } else {
        reserved
    }
}

/// The world with the spawn's singleton key registered on its target.
pub open spec fn registered<C: RelationshipTarget>(
    world: WorldModel<C>,
    facts: Seq<C::Model>,
    reserved: Entity,
) -> WorldModel<C> {
    let keys = singleton_keys::<C>(facts);
    if keys.len() > 0 {
        WorldModel {
            singletons: world.singletons.insert(
                keys[0],
                spawn_target(world, facts, reserved).id(),
            ),
            ..world
        }
    } else {
        world
    }
}

/// Applies one operation as a derived write of `owner`.
pub open spec fn apply_op<C: RelationshipTarget>(
    world: WorldModel<C>,
    op: OpModel<C>,
    owner: Invocation,
) -> (WorldModel<C>, Result<(), ApplyError>) {
    match op {
        OpModel::Insert { entity, fact } => (
            world.insert(entity, fact, Origin::Derived, Some(owner)),
            refused(world.verdict(entity, fact)),
        ),
        OpModel::Spawn { facts, reserved } => if singleton_keys::<C>(facts).len() > 1 {
            (world, Err(ApplyError::SeveralSingletons))
        } else {
            let target = spawn_target(world, facts, reserved);
            insert_facts(
                registered(world, facts, reserved).record_spawn(owner, target),
                target,
                facts,
                Origin::Derived,
                Some(owner),
            )
        },
        OpModel::RemoveEntity { entity } => (world.remove_entity(entity), Ok(())),
        OpModel::RemoveComponent { kind, entity } => (world.remove_component(kind, entity), Ok(())),
    }
}

/// Applies operations in order as derived writes of `owner`; the first refusal
/// ends it.
pub open spec fn apply_ops<C: RelationshipTarget>(
    world: WorldModel<C>,
    ops: Seq<OpModel<C>>,
    owner: Invocation,
) -> (WorldModel<C>, Result<(), ApplyError>)
    decreases ops.len(),
{
    if ops.len() == 0 {
        (world, Ok(()))
    } else {
        let done = apply_ops(world, ops.drop_last(), owner);
        if done.1 is Err {
            done
        } else {
            apply_op(done.0, ops.last(), owner)
        }
    }
}

/// Collects the singleton key of a bundle.
pub fn bundle_singleton_key<C: Component>(bundle: &Vec<C>) -> (key: Result<
    Option<ComponentId>,
    ApplyError,
>)
    ensures
        key == {
            let keys = singleton_keys::<C>(facts_of(bundle@));
            if keys.len() == 0 {
                Ok(None)
            } else if keys.len() == 1 {
                Ok(Some(keys[0]))
            } else {
                Err(ApplyError::SeveralSingletons)
            }
        },
{
    let ghost facts = facts_of(bundle@);
    let mut key: Option<ComponentId> = None;
    let mut several = false;
    let mut i: usize = 0;
    assert(facts.take(0) =~= Seq::<C::Model>::empty());
    while i < bundle.len()
        invariant
            i <= bundle@.len(),
            facts == facts_of(bundle@),
            several <==> singleton_keys::<C>(facts.take(i as int)).len() > 1,
            !several ==> match key {
                Some(key) => singleton_keys::<C>(facts.take(i as int)) == seq![key],
                None => singleton_keys::<C>(facts.take(i as int)).len() == 0,
            },
            several ==> key is Some,
        decreases bundle@.len() - i,
    {
        assert(facts.take(i + 1).drop_last() =~= facts.take(i as int));
        if let Some(next_key) = C::singleton_key(bundle[i].component_id()) {
            if key.is_some() {
                several = true;
            }
            key = Some(next_key);
            assert(!several ==> singleton_keys::<C>(facts.take(i + 1)) =~= seq![next_key]);
        }
        i = i + 1;
    }
    assert(facts.take(bundle@.len() as int) =~= facts);
    if several {
        Err(ApplyError::SeveralSingletons)
    } else {
        Ok(key)
    }
}

fn lift(outcome: Result<(), SingletonConflict>) -> (lifted: Result<(), ApplyError>)
    ensures
        lifted == refused(outcome),
{
    match outcome {
        Ok(_) => Ok(()),
        Err(conflict) => Err(ApplyError::Conflict(conflict)),
    }
}

/// Inserts the values of a bundle on one entity as derived writes of `owner`.
pub fn insert_bundle<C: RelationshipTarget>(
    world: &mut World<C>,
    entity: Entity,
    bundle: Vec<C>,
    owner: &SystemInvocation,
) -> (outcome: Result<(), ApplyError>)
    requires
        old(world).wf(),
    ensures
        final(world).wf(),
        (final(world)@, outcome) == insert_facts(
            old(world)@,
            entity,
            facts_of(bundle@),
            Origin::Derived,
            Some(owner@),
        ),
{
    let ghost before = world@;
    let ghost facts = facts_of(bundle@);
    let ghost total = bundle@.len();
    let mut rest = bundle;
    let mut outcome: Result<(), ApplyError> = Ok(());
    let ghost mut done: int = 0;
    assert(facts.take(0) =~= Seq::<C::Model>::empty());
    while rest.len() > 0 && outcome.is_ok()
        invariant
            world.wf(),
            0 <= done,
            done + rest@.len() == total,
            facts.len() == total,
            facts_of(rest@) =~= facts.skip(done),
            (world@, outcome) == insert_facts(
                before,
                entity,
                facts.take(done),
                Origin::Derived,
                Some(owner@),
            ),
        decreases rest@.len(),
    {
        let ghost values = rest@;
        let value = rest.remove(0);
        assert(facts_of(values)[0] == facts.skip(done)[0]);
        assert(value.model() == facts[done]);
        assert(facts.take(done + 1).drop_last() =~= facts.take(done));
        assert(facts_of(rest@) =~= facts_of(values).drop_first());
        assert(facts.skip(done + 1) =~= facts.skip(done).drop_first());
        outcome = lift(world.insert_derived(entity, value, owner));
        proof {
            done = done + 1;
        }
    }
    proof {
        if outcome is Err {
            lemma_refused_bundle_stops(before, entity, facts, done, owner@);
        } else {
            assert(facts.take(done) =~= facts);
        }
    }
    outcome
}

proof fn lemma_refused_bundle_stops<C: RelationshipTarget>(
    world: WorldModel<C>,
    entity: Entity,
    facts: Seq<C::Model>,
    done: int,
    owner: Invocation,
)
    requires
        0 <= done <= facts.len(),
        insert_facts(world, entity, facts.take(done), Origin::Derived, Some(owner)).1 is Err,
    ensures
        insert_facts(world, entity, facts, Origin::Derived, Some(owner)) == insert_facts(
            world,
            entity,
            facts.take(done),
            Origin::Derived,
            Some(owner),
        ),
    decreases facts.len() - done,
{
    if done == facts.len() {
        assert(facts.take(done) =~= facts);
    } else {
        assert(facts.take(done + 1).drop_last() =~= facts.take(done));
        lemma_refused_bundle_stops(world, entity, facts, done + 1, owner);
    }
}

impl<C: RelationshipTarget> CommandOp<C> {
    /// Whether this operation is held back when a settle-phase system issues it:
    /// inserts and spawns queue as inputs of the next run, removals apply
    /// within the settle.
    pub fn defers_at_settle(&self) -> (defers: bool)
        ensures
            defers == self@.deferred(),
    {
        match self {
            CommandOp::Insert { .. } | CommandOp::Spawn { .. } => true,
            _ => false,
        }
    }

    /// Applies the operation as a derived write owned by `owner`.
    pub fn apply(self, world: &mut World<C>, owner: &SystemInvocation) -> (outcome: Result<
        (),
        ApplyError,
    >)
        requires
            old(world).wf(),
        ensures
            final(world).wf(),
            (final(world)@, outcome) == apply_op(old(world)@, self@, owner@),
    {
        match self {
            CommandOp::Insert { entity, value } => lift(world.insert_derived(entity, value, owner)),
            CommandOp::Spawn { bundle, reserved } => {
                let ghost before = world@;
                let ghost facts = facts_of(bundle@);
                let key = match bundle_singleton_key(&bundle) {
                    Ok(key) => key,
                    Err(error) => {
                        return Err(error);
                    },
                };
                let entity = match key {
                    Some(key) => world.singleton_entity_or_register(key, reserved),
                    None => reserved,
                };
                assert(entity == spawn_target(before, facts, reserved));
                assert(world@ =~= registered(before, facts, reserved)) by {
                    assert(world@.singletons =~= registered(before, facts, reserved).singletons);
                }
                world.record_derived_spawn(owner, entity);
                insert_bundle(world, entity, bundle, owner)
            },
            CommandOp::RemoveEntity { entity } => {
                world.remove_entity(entity);
                Ok(())
            },
            CommandOp::RemoveComponent { kind, entity } => {
                world.remove_component(kind, entity);
                Ok(())
            },
        }
    }
}

proof fn lemma_refused_ops_stop<C: RelationshipTarget>(
    world: WorldModel<C>,
    ops: Seq<OpModel<C>>,
    done: int,
    owner: Invocation,
)
    requires
        0 <= done <= ops.len(),
        apply_ops(world, ops.take(done), owner).1 is Err,
    ensures
        apply_ops(world, ops, owner) == apply_ops(world, ops.take(done), owner),
    decreases ops.len() - done,
{
    if done == ops.len() {
        assert(ops.take(done) =~= ops);
    } else {
        assert(ops.take(done + 1).drop_last() =~= ops.take(done));
        lemma_refused_ops_stop(world, ops, done + 1, owner);
    }
}

/// Applies a drained buffer as derived writes of `owner`.
pub fn apply_commands<C: RelationshipTarget>(
    world: &mut World<C>,
    ops: Vec<CommandOp<C>>,
    owner: &SystemInvocation,
) -> (outcome: Result<(), ApplyError>)
    requires
        old(world).wf(),
    ensures
        final(world).wf(),
        (final(world)@, outcome) == apply_ops(old(world)@, ops_view(ops@), owner@),
{
    let ghost before = world@;
    let ghost all = ops_view(ops@);
    let ghost total = ops@.len();
    let mut rest = ops;
    let mut outcome: Result<(), ApplyError> = Ok(());
    let ghost mut done: int = 0;
    assert(all.take(0) =~= Seq::<OpModel<C>>::empty());
    while rest.len() > 0 && outcome.is_ok()
        invariant
            world.wf(),
            0 <= done,
            done + rest@.len() == total,
            all.len() == total,
            ops_view(rest@) =~= all.skip(done),
            (world@, outcome) == apply_ops(before, all.take(done), owner@),
        decreases rest@.len(),
    {
        let ghost held = rest@;
        let op = rest.remove(0);
        assert(ops_view(held)[0] == all.skip(done)[0]);
        assert(op@ == all[done]);
        assert(all.take(done + 1).drop_last() =~= all.take(done));
        assert(ops_view(rest@) =~= ops_view(held).drop_first());
        assert(all.skip(done + 1) =~= all.skip(done).drop_first());
        outcome = op.apply(world, owner);
        proof {
            done = done + 1;
        }
    }
    proof {
        if outcome is Err {
            lemma_refused_ops_stop(before, all, done, owner@);
        } else {
            assert(all.take(done) =~= all);
        }
    }
    outcome
}

/// An operation queued by a caller outside the systems.
#[derive(Debug)]
pub enum BaseCommandOp<C> {
    /// Inserts a base component.
    Insert { entity: Entity, value: C },
    /// Removes a component.
    RemoveComponent { kind: ComponentId, entity: Entity },
    /// Removes an entity and everything on it.
    RemoveEntity { entity: Entity },
}

/// What a [`BaseCommandOp`] means.
#[verifier::ext_equal]
#[verifier::reject_recursive_types(C)]
pub enum BaseOpModel<C: Component> {
    Insert { entity: Entity, fact: C::Model },
    RemoveComponent { kind: ComponentId, entity: Entity },
    RemoveEntity { entity: Entity },
}

impl<C: Component> View for BaseCommandOp<C> {
    type V = BaseOpModel<C>;

    open spec fn view(&self) -> BaseOpModel<C> {
        match self {
            BaseCommandOp::Insert { entity, value } => BaseOpModel::Insert {
                entity: *entity,
                fact: value.model(),
            },
            BaseCommandOp::RemoveComponent { kind, entity } => BaseOpModel::RemoveComponent {
                kind: *kind,
                entity: *entity,
            },
            BaseCommandOp::RemoveEntity { entity } => BaseOpModel::RemoveEntity {
                entity: *entity,
            },
        }
    }
}

/// What a list of base operations means.
pub open spec fn base_ops_view<C: Component>(ops: Seq<BaseCommandOp<C>>) -> Seq<BaseOpModel<C>> {
    ops.map_values(|op: BaseCommandOp<C>| op@)
}

/// Applies one base operation.
pub open spec fn apply_base_op<C: RelationshipTarget>(
    world: WorldModel<C>,
    op: BaseOpModel<C>,
) -> (WorldModel<C>, Result<(), ApplyError>) {
    match op {
        BaseOpModel::Insert { entity, fact } => (
            world.insert(entity, fact, Origin::Base, None),
            refused(world.verdict(entity, fact)),
        ),
        BaseOpModel::RemoveComponent { kind, entity } => (
            world.remove_component(kind, entity),
            Ok(()),
        ),
        BaseOpModel::RemoveEntity { entity } => (world.remove_entity(entity), Ok(())),
    }
}

/// Applies base operations in order; the first refusal ends it.
pub open spec fn apply_base_ops<C: RelationshipTarget>(
    world: WorldModel<C>,
    ops: Seq<BaseOpModel<C>>,
) -> (WorldModel<C>, Result<(), ApplyError>)
    decreases ops.len(),
{
    if ops.len() == 0 {
        (world, Ok(()))
    } else {
        let done = apply_base_ops(world, ops.drop_last());
        if done.1 is Err {
            done
        } else {
            apply_base_op(done.0, ops.last())
        }
    }
}

impl<C: RelationshipTarget> BaseCommandOp<C> {
    /// Applies the operation as a base input write.
    pub fn apply(self, world: &mut World<C>) -> (outcome: Result<(), ApplyError>)
        requires
            old(world).wf(),
        ensures
            final(world).wf(),
            (final(world)@, outcome) == apply_base_op(old(world)@, self@),
    {
        match self {
            BaseCommandOp::Insert { entity, value } => lift(world.insert_base(entity, value)),
            BaseCommandOp::RemoveComponent { kind, entity } => {
                world.remove_component(kind, entity);
                Ok(())
            },
            BaseCommandOp::RemoveEntity { entity } => {
                world.remove_entity(entity);
                Ok(())
            },
        }
    }
}

proof fn lemma_refused_base_ops_stop<C: RelationshipTarget>(
    world: WorldModel<C>,
    ops: Seq<BaseOpModel<C>>,
    done: int,
)
    requires
        0 <= done <= ops.len(),
        apply_base_ops(world, ops.take(done)).1 is Err,
    ensures
        apply_base_ops(world, ops) == apply_base_ops(world, ops.take(done)),
    decreases ops.len() - done,
{
    if done == ops.len() {
        assert(ops.take(done) =~= ops);
    } else {
        assert(ops.take(done + 1).drop_last() =~= ops.take(done));
        lemma_refused_base_ops_stop(world, ops, done + 1);
    }
}

/// Applies queued inputs in order.
pub fn apply_base_commands<C: RelationshipTarget>(
    world: &mut World<C>,
    ops: Vec<BaseCommandOp<C>>,
) -> (outcome: Result<(), ApplyError>)
    requires
        old(world).wf(),
    ensures
        final(world).wf(),
        (final(world)@, outcome) == apply_base_ops(old(world)@, base_ops_view(ops@)),
{
    let ghost before = world@;
    let ghost all = base_ops_view(ops@);
    let ghost total = ops@.len();
    let mut rest = ops;
    let mut outcome: Result<(), ApplyError> = Ok(());
    let ghost mut done: int = 0;
    assert(all.take(0) =~= Seq::<BaseOpModel<C>>::empty());
    while rest.len() > 0 && outcome.is_ok()
        invariant
            world.wf(),
            0 <= done,
            done + rest@.len() == total,
            all.len() == total,
            base_ops_view(rest@) =~= all.skip(done),
            (world@, outcome) == apply_base_ops(before, all.take(done)),
        decreases rest@.len(),
    {
        let ghost held = rest@;
        let op = rest.remove(0);
        assert(base_ops_view(held)[0] == all.skip(done)[0]);
        assert(op@ == all[done]);
        assert(all.take(done + 1).drop_last() =~= all.take(done));
        assert(base_ops_view(rest@) =~= base_ops_view(held).drop_first());
        assert(all.skip(done + 1) =~= all.skip(done).drop_first());
        outcome = op.apply(world);
        proof {
            done = done + 1;
        }
    }
    proof {
        if outcome is Err {
            lemma_refused_base_ops_stop(before, all, done);
        } else {
            assert(all.take(done) =~= all);
        }
    }
    outcome
}

/// A group of components inserted onto one entity: tuples of components.
pub trait Bundle: Sized {
    /// The universe of the components.
    type Universe: Component;

    /// What the bundle's components mean, in order.
    spec fn facts(self) -> Seq<<Self::Universe as Component>::Model>;

    /// The components as values of the universe, in order.
    fn into_values(self) -> (values: Vec<Self::Universe>)
        ensures
            facts_of(values@) == self.facts(),
    ;
}

impl<T0: ComponentType> Bundle for (T0,) {
    type Universe = T0::Universe;

    open spec fn facts(self) -> Seq<<T0::Universe as Component>::Model> {
        seq![self.0.meaning()]
    }

    fn into_values(self) -> (values: Vec<T0::Universe>) {
        let mut values: Vec<T0::Universe> = Vec::new();
        values.push(self.0.erase());
        assert(facts_of(values@) =~= self.facts());
        values
    }
}

impl<T0: ComponentType, T1: ComponentType<Universe = T0::Universe>> Bundle for (T0, T1) {
    type Universe = T0::Universe;

    open spec fn facts(self) -> Seq<<T0::Universe as Component>::Model> {
        seq![self.0.meaning(), self.1.meaning()]
    }

    fn into_values(self) -> (values: Vec<T0::Universe>) {
        let mut values: Vec<T0::Universe> = Vec::new();
        values.push(self.0.erase());
        values.push(self.1.erase());
        assert(facts_of(values@) =~= self.facts());
        values
    }
}

impl<T0: ComponentType, T1: ComponentType<Universe = T0::Universe>, T2: ComponentType<Universe = T0::Universe>> Bundle for (T0, T1, T2) {
    type Universe = T0::Universe;

    open spec fn facts(self) -> Seq<<T0::Universe as Component>::Model> {
        seq![self.0.meaning(), self.1.meaning(), self.2.meaning()]
    }

    fn into_values(self) -> (values: Vec<T0::Universe>) {
        let mut values: Vec<T0::Universe> = Vec::new();
        values.push(self.0.erase());
        values.push(self.1.erase());
        values.push(self.2.erase());
        assert(facts_of(values@) =~= self.facts());
        values
    }
}

impl<T0: ComponentType, T1: ComponentType<Universe = T0::Universe>, T2: ComponentType<Universe = T0::Universe>, T3: ComponentType<Universe = T0::Universe>> Bundle for (T0, T1, T2, T3) {
    type Universe = T0::Universe;

    open spec fn facts(self) -> Seq<<T0::Universe as Component>::Model> {
        seq![self.0.meaning(), self.1.meaning(), self.2.meaning(), self.3.meaning()]
    }

    fn into_values(self) -> (values: Vec<T0::Universe>) {
        let mut values: Vec<T0::Universe> = Vec::new();
        values.push(self.0.erase());
        values.push(self.1.erase());
        values.push(self.2.erase());
        values.push(self.3.erase());
        assert(facts_of(values@) =~= self.facts());
        values
    }
}

impl<T0: ComponentType, T1: ComponentType<Universe = T0::Universe>, T2: ComponentType<Universe = T0::Universe>, T3: ComponentType<Universe = T0::Universe>, T4: ComponentType<Universe = T0::Universe>> Bundle for (T0, T1, T2, T3, T4) {
    type Universe = T0::Universe;

    open spec fn facts(self) -> Seq<<T0::Universe as Component>::Model> {
        seq![self.0.meaning(), self.1.meaning(), self.2.meaning(), self.3.meaning(), self.4.meaning()]
    }

    fn into_values(self) -> (values: Vec<T0::Universe>) {
        let mut values: Vec<T0::Universe> = Vec::new();
        values.push(self.0.erase());
        values.push(self.1.erase());
        values.push(self.2.erase());
        values.push(self.3.erase());
        values.push(self.4.erase());
        assert(facts_of(values@) =~= self.facts());
        values
    }
}

impl<T0: ComponentType, T1: ComponentType<Universe = T0::Universe>, T2: ComponentType<Universe = T0::Universe>, T3: ComponentType<Universe = T0::Universe>, T4: ComponentType<Universe = T0::Universe>, T5: ComponentType<Universe = T0::Universe>> Bundle for (T0, T1, T2, T3, T4, T5) {
    type Universe = T0::Universe;

    open spec fn facts(self) -> Seq<<T0::Universe as Component>::Model> {
        seq![self.0.meaning(), self.1.meaning(), self.2.meaning(), self.3.meaning(), self.4.meaning(), self.5.meaning()]
    }

    fn into_values(self) -> (values: Vec<T0::Universe>) {
        let mut values: Vec<T0::Universe> = Vec::new();
        values.push(self.0.erase());
        values.push(self.1.erase());
        values.push(self.2.erase());
        values.push(self.3.erase());
        values.push(self.4.erase());
        values.push(self.5.erase());
        assert(facts_of(values@) =~= self.facts());
        values
    }
}

impl<T0: ComponentType, T1: ComponentType<Universe = T0::Universe>, T2: ComponentType<Universe = T0::Universe>, T3: ComponentType<Universe = T0::Universe>, T4: ComponentType<Universe = T0::Universe>, T5: ComponentType<Universe = T0::Universe>, T6: ComponentType<Universe = T0::Universe>> Bundle for (T0, T1, T2, T3, T4, T5, T6) {
    type Universe = T0::Universe;

    open spec fn facts(self) -> Seq<<T0::Universe as Component>::Model> {
        seq![self.0.meaning(), self.1.meaning(), self.2.meaning(), self.3.meaning(), self.4.meaning(), self.5.meaning(), self.6.meaning()]
    }

    fn into_values(self) -> (values: Vec<T0::Universe>) {
        let mut values: Vec<T0::Universe> = Vec::new();
        values.push(self.0.erase());
        values.push(self.1.erase());
        values.push(self.2.erase());
        values.push(self.3.erase());
        values.push(self.4.erase());
        values.push(self.5.erase());
        values.push(self.6.erase());
        assert(facts_of(values@) =~= self.facts());
        values
    }
}

impl<T0: ComponentType, T1: ComponentType<Universe = T0::Universe>, T2: ComponentType<Universe = T0::Universe>, T3: ComponentType<Universe = T0::Universe>, T4: ComponentType<Universe = T0::Universe>, T5: ComponentType<Universe = T0::Universe>, T6: ComponentType<Universe = T0::Universe>, T7: ComponentType<Universe = T0::Universe>> Bundle for (T0, T1, T2, T3, T4, T5, T6, T7) {
    type Universe = T0::Universe;

    open spec fn facts(self) -> Seq<<T0::Universe as Component>::Model> {
        seq![self.0.meaning(), self.1.meaning(), self.2.meaning(), self.3.meaning(), self.4.meaning(), self.5.meaning(), self.6.meaning(), self.7.meaning()]
    }

    fn into_values(self) -> (values: Vec<T0::Universe>) {
        let mut values: Vec<T0::Universe> = Vec::new();
        values.push(self.0.erase());
        values.push(self.1.erase());
        values.push(self.2.erase());
        values.push(self.3.erase());
        values.push(self.4.erase());
        values.push(self.5.erase());
        values.push(self.6.erase());
        values.push(self.7.erase());
        assert(facts_of(values@) =~= self.facts());
        values
    }
}

/// What a command buffer holds.
#[verifier::ext_equal]
#[verifier::reject_recursive_types(C)]
pub struct BufferModel<C: Component> {
    pub ops: Seq<OpModel<C>>,
    pub slots: Seq<Entity>,
    pub cursor: usize,
}

/// Buffered writes issued by a system invocation.
///
/// The type parameter `S` is the system's output declaration: a tuple of
/// component types and groups. Every insert is bounded to the declared set, so
/// emitting an undeclared component does not compile. `Commands<C, ()>` is a
/// writer that only removes.
pub struct Commands<C, S> {
    ops: Vec<CommandOp<C>>,
    spawn_slots: Vec<Entity>,
    spawn_cursor: usize,
    _declares: PhantomData<S>,
}

impl<C: RelationshipTarget, S> View for Commands<C, S> {
    type V = BufferModel<C>;

    closed spec fn view(&self) -> BufferModel<C> {
        BufferModel {
            ops: ops_view(self.ops@),
            slots: self.spawn_slots@,
            cursor: self.spawn_cursor,
        }
    }
}

impl<C: RelationshipTarget> Commands<C, Anything> {
    /// Creates an invocation's buffer. It reserves spawn ids from `spawn_slots`
    /// first, the ids of the invocation's previous run in spawn order.
    pub fn new(spawn_slots: Vec<Entity>) -> (commands: Self)
        ensures
            commands@ == (BufferModel::<C> {
                ops: Seq::empty(),
                slots: spawn_slots@,
                cursor: 0,
            }),
    {
        let commands = Commands {
            ops: Vec::new(),
            spawn_slots,
            spawn_cursor: 0,
            _declares: PhantomData,
        };
        assert(commands@.ops =~= Seq::<OpModel<C>>::empty());
        commands
    }
}

impl<C: RelationshipTarget, S> Commands<C, S> {
    /// Reinterprets the buffer under a different declaration.
    pub fn retype<S2>(self) -> (commands: Commands<C, S2>)
        ensures
            commands@ == self@,
    {
        Commands {
            ops: self.ops,
            spawn_slots: self.spawn_slots,
            spawn_cursor: self.spawn_cursor,
            _declares: PhantomData,
        }
    }

    /// Returns a builder for writing components to an existing entity.
    ///
    /// The handle's facet carries into the builder: through `Entity<H>` only the
    /// shape's `Option<T>` parts may be inserted, while the untyped handle keeps
    /// plain membership in `S`.
    pub fn entity<'a, H>(&'a mut self, entity: Entity<H>) -> (builder: EntityCommands<'a, C, S, H>)
        ensures
            builder.entity.id() == entity.id(),
            *builder.commands == *old(self),
            *final(builder.commands) == *final(self),
    {
        EntityCommands { commands: self, entity: entity.untyped(), _facet: PhantomData }
    }

    /// Reserves the next spawn id: the invocation's previous ids slot by slot,
    /// then fresh ones.
    fn reserve(&mut self, allocator: &mut EntityAllocator) -> (entity: Entity)
        ensures
            entity == reserved(old(self)@.slots, old(self)@.cursor, old(allocator)@),
            final(allocator)@ == after_reserve(
                old(self)@.slots,
                old(self)@.cursor,
                old(allocator)@,
            ),
            final(self)@ == (BufferModel {
                cursor: next_slot(old(self)@.cursor),
                ..old(self)@
            }),
    {
        let entity = if self.spawn_cursor < self.spawn_slots.len() {
            self.spawn_slots[self.spawn_cursor]
        } else {
            allocator.allocate()
        };
        if self.spawn_cursor < usize::MAX {
            self.spawn_cursor = self.spawn_cursor + 1;
        }
        entity
    }

    /// Buffers spawning a derived entity with the values of `bundle` and returns
    /// its reserved id.
    pub fn spawn(&mut self, bundle: Vec<C>, allocator: &mut EntityAllocator) -> (entity: Entity)
        ensures
            entity == reserved(old(self)@.slots, old(self)@.cursor, old(allocator)@),
            final(allocator)@ == after_reserve(
                old(self)@.slots,
                old(self)@.cursor,
                old(allocator)@,
            ),
            final(self)@ == (BufferModel {
                ops: old(self)@.ops.push(
                    OpModel::Spawn { facts: facts_of(bundle@), reserved: entity },
                ),
                cursor: next_slot(old(self)@.cursor),
                ..old(self)@
            }),
    {
        let reserved = self.reserve(allocator);
        self.ops.push(CommandOp::Spawn { bundle, reserved });
        assert(self@.ops =~= old(self)@.ops.push(
            OpModel::Spawn { facts: facts_of(bundle@), reserved },
        ));
        reserved
    }

    /// Buffers spawning a new derived entity with `bundle` and returns its
    /// reserved id, so that sibling commands of the buffer can link to it.
    ///
    /// Spawning is strict: the bundle matches one shape declared in `S`, and the
    /// returned handle is typed with it. Reservation reuses the invocation's
    /// previous spawn ids slot by slot, so an idempotent rerun keeps its entity
    /// identity. A singleton bundle resolves to the entity that already holds
    /// its key when the buffer applies.
    pub fn insert<B, M>(&mut self, bundle: B, allocator: &mut EntityAllocator) -> (entity: Entity<
        <B as SpawnsAs<S, M>>::Shape,
    >) where B: Bundle<Universe = C> + SpawnsAs<S, M>
        ensures
            entity.id() == reserved(old(self)@.slots, old(self)@.cursor, old(allocator)@).id(),
            final(allocator)@ == after_reserve(
                old(self)@.slots,
                old(self)@.cursor,
                old(allocator)@,
            ),
            final(self)@ == (BufferModel {
                ops: old(self)@.ops.push(
                    OpModel::Spawn {
                        facts: bundle.facts(),
                        reserved: reserved(old(self)@.slots, old(self)@.cursor, old(allocator)@),
                    },
                ),
                cursor: next_slot(old(self)@.cursor),
                ..old(self)@
            }),
    {
        let values = bundle.into_values();
        self.spawn(values, allocator).retype()
    }

    /// Buffers inserting a derived component on an entity.
    pub fn insert_value(&mut self, entity: Entity, value: C)
        ensures
            final(self)@ == (BufferModel {
                ops: old(self)@.ops.push(OpModel::Insert { entity, fact: value.model() }),
                ..old(self)@
            }),
    {
        self.ops.push(CommandOp::Insert { entity, value });
        assert(self@.ops =~= old(self)@.ops.push(
            OpModel::Insert { entity, fact: value.model() },
        ));
    }

    /// Buffers removing a component from an entity.
    pub fn remove_value(&mut self, entity: Entity, kind: ComponentId)
        ensures
            final(self)@ == (BufferModel {
                ops: old(self)@.ops.push(OpModel::RemoveComponent { kind, entity }),
                ..old(self)@
            }),
    {
        self.ops.push(CommandOp::RemoveComponent { kind, entity });
        assert(self@.ops =~= old(self)@.ops.push(OpModel::RemoveComponent { kind, entity }));
    }

    /// Buffers removing an entity and all attached components.
    pub fn remove<H>(&mut self, entity: Entity<H>)
        ensures
            final(self)@ == (BufferModel {
                ops: old(self)@.ops.push(
                    OpModel::RemoveEntity { entity: Entity::of(entity.id()) },
                ),
                ..old(self)@
            }),
    {
        self.ops.push(CommandOp::RemoveEntity { entity: entity.untyped() });
        assert(self@.ops =~= old(self)@.ops.push(
            OpModel::RemoveEntity { entity: Entity::of(entity.id()) },
        ));
    }

    /// Drains the buffered operations after the invocation returns.
    pub fn take(self) -> (ops: Vec<CommandOp<C>>)
        ensures
            ops_view(ops@) == self@.ops,
    {
        self.ops
    }
}

/// Command builder scoped to one entity. The facet `H` bounds what may be
/// written: `Untyped` means plain declaration membership, a shape facet
/// restricts inserts to its optional parts.
pub struct EntityCommands<'a, C, S, H = Untyped> {
    pub commands: &'a mut Commands<C, S>,
    pub entity: Entity,
    pub _facet: PhantomData<H>,
}

impl<'a, C: RelationshipTarget, S, H> EntityCommands<'a, C, S, H> {
    /// Buffers insertion of a derived component on this entity.
    ///
    /// The component is owned by the current invocation: when that reruns, the
    /// outputs it does not emit again are removed.
    pub fn insert<T, M, M2>(&mut self, value: T) where
        T: ComponentType<Universe = C> + DeclaredIn<S, M> + IncrementOf<H, M2>,

        ensures
            final(self).entity == old(self).entity,
            final(self).commands@ == (BufferModel {
                ops: old(self).commands@.ops.push(
                    OpModel::Insert { entity: old(self).entity, fact: value.meaning() },
                ),
                ..old(self).commands@
            }),
            *final(final(self).commands) == *final(old(self).commands),
    {
        let entity = self.entity;
        self.commands.insert_value(entity, value.erase());
    }

    /// Buffers removing component `T` from this entity.
    pub fn remove<T: ComponentType<Universe = C>>(&mut self)
        ensures
            final(self).entity == old(self).entity,
            final(self).commands@ == (BufferModel {
                ops: old(self).commands@.ops.push(
                    OpModel::RemoveComponent { kind: T::key(), entity: old(self).entity },
                ),
                ..old(self).commands@
            }),
            *final(final(self).commands) == *final(old(self).commands),
    {
        let entity = self.entity;
        self.commands.remove_value(entity, T::component_type());
    }
}

/// The ids that `count` spawns of one buffer reserve.
pub open spec fn reserved_ids(slots: Seq<Entity>, next: u64, count: nat) -> Seq<Entity>
    decreases count,
{
    if count == 0 {
        Seq::empty()
    } else {
        let done = (count - 1) as nat;
        reserved_ids(slots, next, done).push(
            reserved(slots, done as usize, next_after(slots, next, done)),
        )
    }
}

/// The allocator's next id after `count` spawns of one buffer.
pub open spec fn next_after(slots: Seq<Entity>, next: u64, count: nat) -> u64
    decreases count,
{
    if count == 0 {
        next
    } else {
        let done = (count - 1) as nat;
        after_reserve(slots, done as usize, next_after(slots, next, done))
    }
}

/// A rerun that spawns no more than its previous run did reserves the previous
/// ids in spawn order, and allocates nothing.
pub proof fn lemma_rerun_keeps_spawn_ids(slots: Seq<Entity>, next: u64, count: nat)
    requires
        count <= slots.len(),
        count <= usize::MAX,
    ensures
        reserved_ids(slots, next, count) == slots.take(count as int),
        next_after(slots, next, count) == next,
    decreases count,
{
    if count > 0 {
        lemma_rerun_keeps_spawn_ids(slots, next, (count - 1) as nat);
        assert(reserved_ids(slots, next, count) =~= slots.take(count as int));
    } else {
        assert(reserved_ids(slots, next, count) =~= slots.take(0));
    }
}

} // verus!
