//! Buffered writes of systems.

use crate::commands::{facts_of, Bundle};
use crate::component::{Component, ComponentType};
use crate::entity::Entity;
use crate::invocation::{Invocation, SystemInvocation};
use crate::model::Origin;
use crate::pipeline::tables::{Tables, TablesModel};
use std::sync::Arc;
use vstd::prelude::*;

verus! {

/// One buffered write.
pub enum CommandOp<C> {
    /// Insert a derived component on an entity.
    Insert(Entity, Arc<C>),
    /// Insert derived components on a fresh entity.
    Spawn(Vec<Arc<C>>),
}

/// What a write is.
#[verifier::reject_recursive_types(C)]
pub enum OpModel<C: Component> {
    Insert(Entity, C::Model),
    Spawn(Seq<C::Model>),
}

/// What shared values mean.
pub open spec fn shared_facts<C: Component>(values: Seq<Arc<C>>) -> Seq<C::Model> {
    values.map_values(|value: Arc<C>| value.model())
}

impl<C: Component> View for CommandOp<C> {
    type V = OpModel<C>;

    open spec fn view(&self) -> OpModel<C> {
        match *self {
            CommandOp::Insert(entity, value) => OpModel::Insert(entity, value.model()),
            CommandOp::Spawn(values) => OpModel::Spawn(shared_facts(values@)),
        }
    }
}

/// What writes are.
pub open spec fn ops_view<C: Component>(ops: Seq<CommandOp<C>>) -> Seq<OpModel<C>> {
    ops.map_values(|op: CommandOp<C>| op@)
}

impl<C: Component> TablesModel<C> {
    /// One write was applied for its invocation.
    pub open spec fn applied(self, op: OpModel<C>, owner: Invocation) -> Self {
        match op {
            OpModel::Insert(entity, value) => self.put(entity, value, Origin::Derived, Some(owner)),
            OpModel::Spawn(values) => self.spawned().put_all(
                Entity::of(self.next_entity),
                values,
                Origin::Derived,
                Some(owner),
            ),
        }
    }

    /// Several writes were applied, in order.
    pub open spec fn applied_all(self, ops: Seq<OpModel<C>>, owner: Invocation) -> Self
        decreases ops.len(),
    {
        if ops.len() == 0 {
            self
        } else {
            self.applied_all(ops.drop_last(), owner).applied(ops.last(), owner)
        }
    }
}

/// Copies shared handles.
pub fn share_values<C: Component>(values: &Vec<Arc<C>>) -> (copy: Vec<Arc<C>>)
    ensures
        copy@ == values@,
{
    let mut copy: Vec<Arc<C>> = Vec::new();
    let mut i: usize = 0;
    while i < values.len()
        invariant
            i <= values@.len(),
            copy@ == values@.take(i as int),
        decreases values@.len() - i,
    {
        copy.push(Arc::clone(&values[i]));
        assert(values@.take(i + 1) =~= values@.take(i as int).push(values@[i as int]));
        i = i + 1;
    }
    assert(values@.take(values@.len() as int) =~= values@);
    copy
}

/// Puts values behind shared handles.
pub fn shared<C: Component>(values: Vec<C>) -> (handles: Vec<Arc<C>>)
    ensures
        shared_facts(handles@) == facts_of(values@),
{
    let ghost all = facts_of(values@);
    let mut values = values;
    let mut reversed: Vec<Arc<C>> = Vec::new();
    let ghost count = values@.len();
    while values.len() > 0
        invariant
            all.len() == count,
            values@.len() + reversed@.len() == count,
            facts_of(values@) =~= all.take(values@.len() as int),
            forall|j: int|
                0 <= j < reversed@.len() ==> (#[trigger] reversed@[j]).model() == all[count - 1
                    - j],
        decreases values@.len(),
    {
        let ghost before = values@;
        if let Some(value) = values.pop() {
            proof {
                assert(facts_of(before)[before.len() - 1] == value.model());
                assert(facts_of(values@) =~= facts_of(before).drop_last());
            }
            reversed.push(Arc::new(value));
        }
    }
    let mut handles: Vec<Arc<C>> = Vec::new();
    let mut i: usize = reversed.len();
    while i > 0
        invariant
            i <= reversed@.len(),
            reversed@.len() == count,
            all.len() == count,
            handles@.len() == count - i,
            forall|j: int|
                0 <= j < reversed@.len() ==> (#[trigger] reversed@[j]).model() == all[count - 1
                    - j],
            forall|j: int| 0 <= j < handles@.len() ==> (#[trigger] handles@[j]).model() == all[j],
        decreases i,
    {
        i = i - 1;
        handles.push(Arc::clone(&reversed[i]));
    }
    assert(shared_facts(handles@) =~= all);
    handles
}

impl<C: Component> Tables<C> {
    /// Inserts several components on one entity, in order.
    pub fn insert_all(
        &mut self,
        entity: Entity,
        values: &Vec<Arc<C>>,
        origin: Origin,
        owner: &Option<SystemInvocation>,
    )
        ensures
            final(self)@ == old(self)@.put_all(
                entity,
                shared_facts(values@),
                origin,
                crate::invocation::owner_view(*owner),
            ),
            old(self)@.consistent() ==> final(self)@.consistent(),
    {
        let ghost facts = shared_facts(values@);
        let mut i: usize = 0;
        while i < values.len()
            invariant
                i <= values@.len(),
                facts == shared_facts(values@),
                self@ == old(self)@.put_all(
                    entity,
                    facts.take(i as int),
                    origin,
                    crate::invocation::owner_view(*owner),
                ),
                old(self)@.consistent() ==> self@.consistent(),
            decreases values@.len() - i,
        {
            assert(facts.take(i + 1).drop_last() =~= facts.take(i as int));
            self.insert(
                entity,
                Arc::clone(&values[i]),
                origin,
                crate::invocation::copy_owner(owner),
            );
            i = i + 1;
        }
        assert(facts.take(facts.len() as int) =~= facts);
    }

    /// Applies one write.
    pub fn apply(&mut self, op: &CommandOp<C>, owner: &SystemInvocation)
        ensures
            final(self)@ == old(self)@.applied(op@, owner@),
            old(self)@.consistent() ==> final(self)@.consistent(),
    {
        match op {
            CommandOp::Insert(entity, value) => {
                self.insert(
                    *entity,
                    Arc::clone(value),
                    Origin::Derived,
                    Some(owner.duplicate()),
                );
            },
            CommandOp::Spawn(values) => {
                let entity = self.spawn_empty();
                let by = Some(owner.duplicate());
                self.insert_all(entity, values, Origin::Derived, &by);
            },
        }
    }

    /// Applies several writes, in order.
    pub fn apply_all(&mut self, ops: &Vec<CommandOp<C>>, owner: &SystemInvocation)
        ensures
            final(self)@ == old(self)@.applied_all(ops_view(ops@), owner@),
            old(self)@.consistent() ==> final(self)@.consistent(),
    {
        let ghost all = ops_view(ops@);
        let mut i: usize = 0;
        while i < ops.len()
            invariant
                i <= ops@.len(),
                all == ops_view(ops@),
                self@ == old(self)@.applied_all(all.take(i as int), owner@),
                old(self)@.consistent() ==> self@.consistent(),
            decreases ops@.len() - i,
        {
            assert(all.take(i + 1).drop_last() =~= all.take(i as int));
            self.apply(&ops[i], owner);
            i = i + 1;
        }
        assert(all.take(all.len() as int) =~= all);
    }
}

/// The command buffer of one invocation.
pub struct Commands<C> {
    ops: Vec<CommandOp<C>>,
}

impl<C: Component> View for Commands<C> {
    type V = Seq<OpModel<C>>;

    closed spec fn view(&self) -> Seq<OpModel<C>> {
        ops_view(self.ops@)
    }
}

impl<C: Component> Commands<C> {
    /// Nothing buffered.
    pub fn new() -> (commands: Self)
        ensures
            commands@ == Seq::<OpModel<C>>::empty(),
    {
        let commands = Commands { ops: Vec::new() };
        assert(commands@ =~= Seq::<OpModel<C>>::empty());
        commands
    }

    /// Buffers one write.
    pub fn push(&mut self, op: CommandOp<C>)
        ensures
            final(self)@ == old(self)@.push(op@),
    {
        self.ops.push(op);
        assert(self@ =~= old(self)@.push(op@));
    }

    /// Buffers inserting a bundle on a fresh entity.
    pub fn insert<B: Bundle<Universe = C>>(&mut self, bundle: B)
        ensures
            final(self)@ == old(self)@.push(OpModel::Spawn(bundle.facts())),
    {
        let handles = shared(bundle.into_values());
        self.push(CommandOp::Spawn(handles));
    }

    /// Commands for one entity.
    pub fn entity<'a>(&'a mut self, entity: Entity) -> (commands: EntityCommands<'a, C>)
        ensures
            commands.entity == entity,
            commands.commands@ == old(self)@,
            *final(self) == *final(commands.commands),
    {
        EntityCommands { commands: self, entity }
    }

    /// The buffered writes.
    pub fn into_ops(self) -> (ops: Vec<CommandOp<C>>)
        ensures
            ops_view(ops@) == self@,
    {
        self.ops
    }
}

/// Commands for one entity.
pub struct EntityCommands<'a, C> {
    pub commands: &'a mut Commands<C>,
    pub entity: Entity,
}

impl<'a, C: Component> EntityCommands<'a, C> {
    /// Buffers inserting a derived component on the entity.
    pub fn insert<T: ComponentType<Universe = C>>(&mut self, value: T)
        ensures
            final(self).entity == old(self).entity,
            final(self).commands@ == old(self).commands@.push(
                OpModel::Insert(old(self).entity, value.meaning()),
            ),
            *final(final(self).commands) == *final(old(self).commands),
    {
        let entity = self.entity;
        self.commands.push(CommandOp::Insert(entity, Arc::new(value.erase())));
    }
}

} // verus!
