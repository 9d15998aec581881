//! Consuming entities: removing a bound entity with everything that was derived
//! from it, and taking components out.

use super::{State, StateModel};
use crate::component::{ComponentId, RelationshipTarget};
use crate::entity::Entity;
use crate::invocation::{position_of, untouched, Invocation, SystemInvocation};
use crate::memo::MemoModel;
use crate::model::WorldModel;
use crate::world::{lists_touched, swept_each};
use crate::world_laws::{bare, lemma_give_up_keeps_bare, lemma_removed_entity_is_bare};
use vstd::prelude::*;

verus! {

/// The entities of `removed` that are not in `seen`, each once.
pub open spec fn unseen(removed: Seq<Entity>, seen: Seq<Entity>) -> Seq<Entity>
    decreases removed.len(),
{
    if removed.len() == 0 {
        Seq::empty()
    } else {
        let rest = unseen(removed.drop_last(), seen);
        if seen.contains(removed.last()) || rest.contains(removed.last()) {
            rest
        } else {
            rest.push(removed.last())
        }
    }
}

/// The world and the memo table after sweeping outwards from `frontier`: what
/// invocations on the frontier derived is removed, and the entities that lost
/// something by it, unless they were swept before, are the next frontier.
/// `rounds` lists, round by round, the invocations that were swept; `None` means
/// that it does not list them as they are.
pub open spec fn swept_outwards<C: RelationshipTarget>(
    world: WorldModel<C>,
    memo: Map<Invocation, MemoModel>,
    frontier: Seq<Entity>,
    seen: Seq<Entity>,
    rounds: Seq<Seq<Invocation>>,
) -> Option<(WorldModel<C>, Map<Invocation, MemoModel>)>
    decreases rounds.len(),
{
    if frontier.len() == 0 {
        if rounds.len() == 0 {
            Some((world, memo))
        } else {
            None
        }
    } else if rounds.len() == 0 || !lists_touched(rounds[0], world, frontier) {
        None
    } else {
        let further = unseen(swept_each(world, rounds[0]), seen);
        swept_outwards(
            world.remove_derived_of(rounds[0]),
            untouched(memo, frontier),
            further,
            seen + further,
            rounds.drop_first(),
        )
    }
}

/// The memo table without the records of `owners`.
pub open spec fn forgotten(memo: Map<Invocation, MemoModel>, owners: Seq<Invocation>) -> Map<
    Invocation,
    MemoModel,
>
    decreases owners.len(),
{
    if owners.len() == 0 {
        memo
    } else {
        forgotten(memo, owners.drop_last()).remove(owners.last())
    }
}

/// The state once an entity is removed together with what the owners of its
/// components derived.
pub open spec fn uprooted<C: RelationshipTarget>(
    state: StateModel<C>,
    world: WorldModel<C>,
    memo: Map<Invocation, MemoModel>,
    entity: Entity,
) -> StateModel<C> {
    let owners = world.owners_on(world.kinds(), entity);
    StateModel {
        world: world.remove_entity(entity).remove_derived_of(owners),
        memo: forgotten(untouched(memo, seq![entity]), owners),
        ..state
    }
}

/// Whether `after` is `before` with `entity` removed and everything that was
/// derived from it, directly or through what was removed on the way.
pub open spec fn cleaned<C: RelationshipTarget>(
    before: StateModel<C>,
    after: StateModel<C>,
    entity: Entity,
) -> bool {
    exists|rounds: Seq<Seq<Invocation>>|
        #![trigger swept_outwards(before.world, before.memo, seq![entity], Seq::empty(), rounds)]
        swept_outwards(before.world, before.memo, seq![entity], Seq::empty(), rounds) matches Some(
            swept,
        ) && after == uprooted(before, swept.0, swept.1, entity)
}

fn select_unseen(removed: &Vec<Entity>, seen: &Vec<Entity>) -> (further: Vec<Entity>)
    ensures
        further@ == unseen(removed@, seen@),
{
    let mut further: Vec<Entity> = Vec::new();
    let mut i: usize = 0;
    assert(removed@.take(0) =~= Seq::<Entity>::empty());
    while i < removed.len()
        invariant
            i <= removed@.len(),
            further@ == unseen(removed@.take(i as int), seen@),
        decreases removed@.len() - i,
    {
        assert(removed@.take(i + 1).drop_last() =~= removed@.take(i as int));
        if position_of(seen, removed[i]).is_none() && position_of(&further, removed[i]).is_none() {
            further.push(removed[i]);
        }
        i = i + 1;
    }
    assert(removed@.take(removed@.len() as int) =~= removed@);
    further
}

proof fn lemma_more_rounds(
    rounds: Seq<Seq<Invocation>>,
    owners: Seq<Invocation>,
    later: Seq<Seq<Invocation>>,
)
    ensures
        rounds.push(owners) + later == rounds + (seq![owners] + later),
        (seq![owners] + later)[0] == owners,
        (seq![owners] + later).drop_first() == later,
{
    assert(rounds.push(owners) + later =~= rounds + (seq![owners] + later));
    assert((seq![owners] + later).drop_first() =~= later);
}

impl<C: RelationshipTarget> State<C> {
    fn sweep_outwards(&mut self, entity: Entity)
        requires
            old(self).wf(),
        ensures
            final(self).wf(),
            exists|rounds: Seq<Seq<Invocation>>|
                swept_outwards(
                    old(self)@.world,
                    old(self)@.memo,
                    seq![entity],
                    Seq::empty(),
                    rounds,
                ) == Some((final(self)@.world, final(self)@.memo)),
            final(self)@ == (StateModel {
                world: final(self)@.world,
                memo: final(self)@.memo,
                ..old(self)@
            }),
    {
        self.snapshot_cache = None;
        let ghost before = self@;
        let ghost mut rounds: Seq<Seq<Invocation>> = Seq::empty();
        let mut frontier: Vec<Entity> = Vec::new();
        frontier.push(entity);
        let mut seen: Vec<Entity> = Vec::new();
        proof {
            assert(frontier@ =~= seq![entity]);
            assert(seen@ =~= Seq::<Entity>::empty());
            assert forall|later: Seq<Seq<Invocation>>|
                #![trigger swept_outwards(self@.world, self@.memo, frontier@, seen@, later)]
                swept_outwards(
                    before.world,
                    before.memo,
                    seq![entity],
                    Seq::empty(),
                    rounds + later,
                ) == swept_outwards(self@.world, self@.memo, frontier@, seen@, later) by {
                assert(rounds + later =~= later);
            }
        }
        while frontier.len() > 0
            invariant
                self.wf(),
                self.snapshot_cache is None,
                before == old(self)@,
                self@ == (StateModel { world: self@.world, memo: self@.memo, ..before }),
                seen@.len() <= usize::MAX,
                forall|later: Seq<Seq<Invocation>>|
                    #![trigger swept_outwards(self@.world, self@.memo, frontier@, seen@, later)]
                    swept_outwards(
                        before.world,
                        before.memo,
                        seq![entity],
                        Seq::empty(),
                        rounds + later,
                    ) == swept_outwards(self@.world, self@.memo, frontier@, seen@, later),
            decreases
                    2 * (usize::MAX - seen@.len()) + if frontier@.len() > 0 {
                        1int
                    } else {
                        0int
                    },
        {
            let ghost world = self@.world;
            let ghost memo = self@.memo;
            let ghost front = frontier@;
            let ghost known = seen@;
            self.memo.forget_touched(&frontier);
            let removed = self.world.remove_derived_touched_by(&frontier);
            let further = select_unseen(&removed, &seen);
            let mut more = crate::invocation::copy_entities(&further);
            seen.append(&mut more);
            let _ = seen.len();
            proof {
                let owners = choose|owners: Seq<Invocation>| #[trigger]
                    lists_touched(owners, world, front) && self@.world == world.remove_derived_of(
                        owners,
                    ) && removed@ == swept_each(world, owners);
                assert forall|later: Seq<Seq<Invocation>>|
                    #![trigger swept_outwards(self@.world, self@.memo, further@, seen@, later)]
                    swept_outwards(
                        before.world,
                        before.memo,
                        seq![entity],
                        Seq::empty(),
                        rounds.push(owners) + later,
                    ) == swept_outwards(self@.world, self@.memo, further@, seen@, later) by {
                    lemma_more_rounds(rounds, owners, later);
                    let next = seq![owners] + later;
                    assert(swept_outwards(world, memo, front, known, next) == swept_outwards(
                        before.world,
                        before.memo,
                        seq![entity],
                        Seq::empty(),
                        rounds + next,
                    ));
                    assert(seen@ =~= known + further@);
                }
                rounds = rounds.push(owners);
            }
            frontier = further;
        }
        proof {
            let later = Seq::<Seq<Invocation>>::empty();
            assert(rounds + later =~= rounds);
            assert(swept_outwards(self@.world, self@.memo, frontier@, seen@, later) == Some(
                (self@.world, self@.memo),
            ));
            assert(swept_outwards(before.world, before.memo, seq![entity], Seq::empty(), rounds)
                == Some((self@.world, self@.memo)));
        }
    }

    /// Removes a bound entity: everything that was derived from it, directly or
    /// through entities that lost something by it, then the entity itself, and
    /// what the owners of its components derived elsewhere.
    pub fn cleanup_bound_entity(&mut self, entity: Entity)
        requires
            old(self).wf(),
        ensures
            final(self).wf(),
            cleaned(old(self)@, final(self)@, entity),
    {
        self.sweep_outwards(entity);
        let ghost world = self@.world;
        let ghost memo = self@.memo;
        self.snapshot_cache = None;
        let owners = self.world.remove_entity(entity);
        let mut keys: Vec<Entity> = Vec::new();
        keys.push(entity);
        assert(keys@ =~= seq![entity]);
        self.memo.forget_touched(&keys);
        let ghost all = world.owners_on(world.kinds(), entity);
        let ghost gone = self@;
        assert(owners@.map_values(|owner: SystemInvocation| owner@) == all);
        let mut i: usize = 0;
        assert(all.take(0) =~= Seq::<Invocation>::empty());
        while i < owners.len()
            invariant
                self.wf(),
                self.snapshot_cache is None,
                i <= owners@.len(),
                owners@.map_values(|owner: SystemInvocation| owner@) == all,
                self@ == (StateModel {
                    world: gone.world.remove_derived_of(all.take(i as int)),
                    memo: forgotten(gone.memo, all.take(i as int)),
                    ..gone
                }),
            decreases owners@.len() - i,
        {
            assert(all.take(i + 1).drop_last() =~= all.take(i as int));
            assert(all[i as int] == owners@[i as int]@);
            let _ = self.world.remove_derived_owned(&owners[i]);
            let _ = self.memo.remove(&owners[i]);
            i = i + 1;
        }
        assert(all.take(all.len() as int) =~= all);
        proof {
            let rounds = choose|rounds: Seq<Seq<Invocation>>|
                swept_outwards(
                    old(self)@.world,
                    old(self)@.memo,
                    seq![entity],
                    Seq::empty(),
                    rounds,
                ) == Some((world, memo));
            assert(self@ == uprooted(old(self)@, world, memo, entity));
        }
    }
}

/// A cleaned-up entity carries nothing, and no record of an invocation on it is
/// left.
pub proof fn lemma_cleaned_entity_is_gone<C: RelationshipTarget>(
    before: StateModel<C>,
    after: StateModel<C>,
    entity: Entity,
    owner: Invocation,
)
    requires
        cleaned(before, after, entity),
        owner.keys.contains(entity),
    ensures
        bare(after.world, entity),
        !after.memo.contains_key(owner),
{
    let rounds = choose|rounds: Seq<Seq<Invocation>>|
        #![trigger swept_outwards(before.world, before.memo, seq![entity], Seq::empty(), rounds)]
        swept_outwards(before.world, before.memo, seq![entity], Seq::empty(), rounds) matches Some(
            swept,
        ) && after == uprooted(before, swept.0, swept.1, entity);
    let swept = swept_outwards(before.world, before.memo, seq![entity], Seq::empty(), rounds)->0;
    let owners = swept.0.owners_on(swept.0.kinds(), entity);
    lemma_removed_entity_is_bare(swept.0, entity);
    lemma_remove_derived_of_keeps_bare(swept.0.remove_entity(entity), owners, entity);
    lemma_forgotten_subset(untouched(swept.1, seq![entity]), owners, owner);
    let i = choose|i: int| 0 <= i < owner.keys.len() && owner.keys[i] == entity;
    assert(seq![entity].contains(owner.keys[i])) by {
        assert(seq![entity][0] == entity);
    }
    assert(owner.touched_by(seq![entity]));
}

proof fn lemma_forgotten_subset(
    memo: Map<Invocation, MemoModel>,
    owners: Seq<Invocation>,
    owner: Invocation,
)
    ensures
        forgotten(memo, owners).contains_key(owner) ==> memo.contains_key(owner),
    decreases owners.len(),
{
    if owners.len() > 0 {
        lemma_forgotten_subset(memo, owners.drop_last(), owner);
    }
}

proof fn lemma_remove_derived_of_keeps_bare<C: RelationshipTarget>(
    world: WorldModel<C>,
    owners: Seq<Invocation>,
    entity: Entity,
)
    requires
        bare(world, entity),
    ensures
        bare(world.remove_derived_of(owners), entity),
    decreases owners.len(),
{
    if owners.len() > 0 {
        lemma_remove_derived_of_keeps_bare(world, owners.drop_last(), entity);
        let rest = world.remove_derived_of(owners.drop_last());
        let owner = owners.last();
        let forgot = WorldModel {
            spawns: rest.spawns.remove(owner),
            owned: rest.owned.remove(owner),
            ..rest
        };
        assert forall|kind: ComponentId| !#[trigger] forgot.has(kind, entity) by {
            assert(!rest.has(kind, entity));
        }
        lemma_give_up_keeps_bare(
            forgot,
            owner,
            crate::model::outputs(rest.owned, owner),
            entity,
        );
    }
}

} // verus!
