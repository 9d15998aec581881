//! Runtime filters of external queries: their arguments, what they match, and how
//! an index narrows what has to be looked at.

use crate::component::{ComparableComponent, Component, ComponentId, ComponentType,
    RelationshipTarget};
use crate::entity::Entity;
use crate::model::{ascending, sorted_keys, WorldModel};
use crate::query::{And, Gte, Not, Or, QueryModel, RowQuery, Where, With, Without};
use crate::store::stamped_with;
use crate::world::{as_entities, ids, World};
use vstd::prelude::*;

verus! {

/// Arguments by the query they are scoped to, if any, and their component type.
pub type ArgMap<C> = Map<(Option<u64>, ComponentId), <C as Component>::Model>;

/// Runtime values bound to external query filters.
#[derive(Debug)]
pub struct QueryArgs<C> {
    entries: Vec<(Option<u64>, C)>,
}

impl<C: Component> QueryArgs<C> {
    /// The key of an argument.
    spec fn key_at(&self, i: int) -> (Option<u64>, ComponentId) {
        (self.entries@[i].0, C::kind(self.entries@[i].1.model()))
    }

    spec fn at(&self, i: int, key: (Option<u64>, ComponentId)) -> bool {
        0 <= i < self.entries@.len() && self.key_at(i) == key
    }

    /// No argument occurs twice.
    pub closed spec fn wf(&self) -> bool {
        forall|i: int, j: int|
            0 <= i < self.entries@.len() && 0 <= j < self.entries@.len() && #[trigger] self.key_at(
                i,
            ) == #[trigger] self.key_at(j) ==> i == j
    }
}

impl<C: Component> View for QueryArgs<C> {
    type V = ArgMap<C>;

    closed spec fn view(&self) -> ArgMap<C> {
        Map::new(
            |key: (Option<u64>, ComponentId)| exists|i: int| self.at(i, key),
            |key: (Option<u64>, ComponentId)|
                self.entries@[choose|i: int| self.at(i, key)].1.model(),
        )
    }
}

/// Every argument is bound under its own component type.
pub open spec fn well_typed<C: Component>(args: ArgMap<C>) -> bool {
    forall|key: (Option<u64>, ComponentId)| #[trigger]
        args.contains_key(key) ==> C::kind(args[key]) == key.1
}

/// The argument of type `kind`: the one scoped to the query, else the shared one.
pub open spec fn argument<C: Component>(
    args: ArgMap<C>,
    scope: Option<u64>,
    kind: ComponentId,
) -> Option<C::Model> {
    if scope is Some && args.contains_key((scope, kind)) {
        Some(args[(scope, kind)])
    } else if args.contains_key((None::<u64>, kind)) {
        Some(args[(None::<u64>, kind)])
    } else {
        None
    }
}

impl<C: Component> QueryArgs<C> {
    proof fn lemma_at(&self, i: int)
        requires
            self.wf(),
            0 <= i < self.entries@.len(),
        ensures
            self@.contains_key(self.key_at(i)),
            self@[self.key_at(i)] == self.entries@[i].1.model(),
    {
        let key = self.key_at(i);
        assert(self.at(i, key));
        let j = choose|j: int| self.at(j, key);
        assert(self.at(j, key));
        assert(self.key_at(i) == self.key_at(j));
    }

    /// Every bound argument is bound under its own component type.
    pub proof fn lemma_well_typed(&self)
        requires
            self.wf(),
        ensures
            well_typed::<C>(self@),
    {
        assert forall|key: (Option<u64>, ComponentId)| #[trigger]
            self@.contains_key(key) implies C::kind(self@[key]) == key.1 by {
            let i = choose|i: int| self.at(i, key);
            assert(self.at(i, key));
            self.lemma_at(i);
        }
    }

    /// No arguments.
    pub fn new() -> (args: Self)
        ensures
            args.wf(),
            args@ == Map::<(Option<u64>, ComponentId), C::Model>::empty(),
    {
        let args = QueryArgs { entries: Vec::new() };
        assert(args@ =~= Map::<(Option<u64>, ComponentId), C::Model>::empty()) by {
            assert forall|key: (Option<u64>, ComponentId)| !args@.contains_key(key) by {
                if exists|i: int| args.at(i, key) {
                    let i = choose|i: int| args.at(i, key);
                    assert(args.at(i, key));
                }
            }
        }
        args
    }

    fn find(&self, scope: Option<u64>, kind: ComponentId) -> (at: Option<usize>)
        requires
            self.wf(),
        ensures
            match at {
                Some(i) => i < self.entries@.len() && self.key_at(i as int) == (scope, kind)
                    && self@.contains_key((scope, kind)) && self@[(scope, kind)]
                    == self.entries@[i as int].1.model(),
                None => !self@.contains_key((scope, kind)),
            },
    {
        let mut i: usize = 0;
        while i < self.entries.len()
            invariant
                self.wf(),
                i <= self.entries@.len(),
                forall|j: int| 0 <= j < i ==> #[trigger] self.key_at(j) != (scope, kind),
            decreases self.entries@.len() - i,
        {
            let same = match (self.entries[i].0, scope) {
                (Some(a), Some(b)) => a == b,
                (None, None) => true,
                _ => false,
            };
            if same && self.entries[i].1.component_id() == kind {
                proof {
                    self.lemma_at(i as int);
                }
                return Some(i);
            }
            assert(self.key_at(i as int) != (scope, kind));
            i = i + 1;
        }
        assert(!self@.contains_key((scope, kind))) by {
            if exists|j: int| self.at(j, (scope, kind)) {
                let j = choose|j: int| self.at(j, (scope, kind));
                assert(self.at(j, (scope, kind)));
                assert(self.key_at(j) != (scope, kind));
            }
        }
        None
    }

    /// Binds an argument, shared or scoped to a query. Returns whether it was
    /// new: an argument is bound once.
    pub fn insert(&mut self, scope: Option<u64>, value: C) -> (fresh: bool)
        requires
            old(self).wf(),
        ensures
            final(self).wf(),
            fresh == !old(self)@.contains_key((scope, C::kind(value.model()))),
            final(self)@ == if fresh {
                old(self)@.insert((scope, C::kind(value.model())), value.model())
            } else {
                old(self)@
            },
    {
        let kind = value.component_id();
        if self.find(scope, kind).is_some() {
            return false;
        }
        let ghost before = *self;
        let ghost key = (scope, kind);
        let ghost model = value.model();
        self.entries.push((scope, value));
        proof {
            let now = *self;
            let last = before.entries@.len() as int;
            assert forall|i: int| 0 <= i < last implies now.entries@[i] == before.entries@[i]
                && #[trigger] now.key_at(i) == before.key_at(i) && now.key_at(i) != key by {
                before.lemma_at(i);
            }
            assert(now.key_at(last) == key);
            assert(now.wf()) by {
                assert forall|i: int, j: int|
                    0 <= i < now.entries@.len() && 0 <= j < now.entries@.len()
                        && #[trigger] now.key_at(i) == #[trigger] now.key_at(j) implies i == j by {
                    if i < last && j < last {
                        assert(before.key_at(i) == before.key_at(j));
                    }
                }
            }
            now.lemma_at(last);
            assert forall|k: (Option<u64>, ComponentId)| #[trigger]
                now@.contains_key(k) <==> before@.insert(key, model).contains_key(k) by {
                if now@.contains_key(k) {
                    let i = choose|i: int| now.at(i, k);
                    assert(now.at(i, k));
                    if i < last {
                        before.lemma_at(i);
                    }
                }
                if before@.contains_key(k) {
                    let i = choose|i: int| before.at(i, k);
                    assert(before.at(i, k));
                    assert(now.key_at(i) == k);
                    assert(now.at(i, k));
                }
            }
            assert forall|k: (Option<u64>, ComponentId)| #[trigger]
                now@.contains_key(k) implies now@[k] == before@.insert(key, model)[k] by {
                let i = choose|i: int| now.at(i, k);
                assert(now.at(i, k));
                now.lemma_at(i);
                if i < last {
                    before.lemma_at(i);
                }
            }
            assert(now@ =~= before@.insert(key, model));
        }
        true
    }

    /// The argument of type `kind`: the one scoped to the query, else the shared
    /// one.
    pub fn get(&self, scope: Option<u64>, kind: ComponentId) -> (value: Option<&C>)
        requires
            self.wf(),
        ensures
            match value {
                Some(value) => argument::<C>(self@, scope, kind) == Some(value.model()),
                None => argument::<C>(self@, scope, kind) is None,
            },
    {
        if scope.is_some() {
            if let Some(i) = self.find(scope, kind) {
                return Some(&self.entries[i].1);
            }
        }
        match self.find(None, kind) {
            Some(i) => Some(&self.entries[i].1),
            None => None,
        }
    }
}

/// One or more runtime arguments for external filters.
pub trait ArgBundle: Sized {
    /// The universe of the arguments.
    type Universe: Component;

    /// The arguments, in order.
    spec fn arguments(self) -> Seq<<Self::Universe as Component>::Model>;

    /// Binds the arguments in order. Returns whether all of them were new; the
    /// first that is not ends it.
    fn insert_into(self, args: &mut QueryArgs<Self::Universe>, scope: Option<u64>) -> (fresh: bool)
        requires
            old(args).wf(),
        ensures
            final(args).wf(),
            (final(args)@, fresh) == bound::<Self::Universe>(old(args)@, scope, self.arguments()),
    ;
}

/// The arguments after binding `values` in order, and whether all were new; the
/// first that is not ends it.
pub open spec fn bound<C: Component>(
    args: ArgMap<C>,
    scope: Option<u64>,
    values: Seq<C::Model>,
) -> (ArgMap<C>, bool)
    decreases values.len(),
{
    if values.len() == 0 {
        (args, true)
    } else {
        let done = bound::<C>(args, scope, values.drop_last());
        let key = (scope, C::kind(values.last()));
        if !done.1 || done.0.contains_key(key) {
            (done.0, false)
        } else {
            (done.0.insert(key, values.last()), true)
        }
    }
}

/// Binding two lists is binding the first, then the second.
pub proof fn lemma_bound_in_turn<C: Component>(
    args: ArgMap<C>,
    scope: Option<u64>,
    first: Seq<C::Model>,
    second: Seq<C::Model>,
)
    ensures
        bound::<C>(args, scope, first + second) == if bound::<C>(args, scope, first).1 {
            bound::<C>(bound::<C>(args, scope, first).0, scope, second)
        } else {
            bound::<C>(args, scope, first)
        },
    decreases second.len(),
{
    if second.len() == 0 {
        assert(first + second =~= first);
    } else {
        lemma_bound_in_turn::<C>(args, scope, first, second.drop_last());
        assert((first + second).drop_last() =~= first + second.drop_last());
    }
}

impl<T: ComponentType> ArgBundle for T {
    type Universe = T::Universe;

    open spec fn arguments(self) -> Seq<<T::Universe as Component>::Model> {
        seq![self.meaning()]
    }

    fn insert_into(self, args: &mut QueryArgs<T::Universe>, scope: Option<u64>) -> (fresh: bool) {
        let ghost values = self.arguments();
        let ghost before = args@;
        assert(values.drop_last() =~= Seq::<<T::Universe as Component>::Model>::empty());
        assert(bound::<T::Universe>(before, scope, values.drop_last()) == (before, true));
        args.insert(scope, self.erase())
    }
}

impl<T0: ArgBundle> ArgBundle for (T0,) {
    type Universe = T0::Universe;

    open spec fn arguments(self) -> Seq<<T0::Universe as Component>::Model> {
        self.0.arguments()
    }

    fn insert_into(self, args: &mut QueryArgs<T0::Universe>, scope: Option<u64>) -> (fresh: bool) {
        let ghost before = args@;
        let (v0,) = self;
        v0.insert_into(args, scope)
    }
}

impl<T0: ArgBundle, T1: ArgBundle<Universe = T0::Universe>> ArgBundle for (T0, T1) {
    type Universe = T0::Universe;

    open spec fn arguments(self) -> Seq<<T0::Universe as Component>::Model> {
        self.0.arguments() + self.1.arguments()
    }

    fn insert_into(self, args: &mut QueryArgs<T0::Universe>, scope: Option<u64>) -> (fresh: bool) {
        let ghost before = args@;
        proof {
            lemma_bound_in_turn::<T0::Universe>(before, scope, self.0.arguments(), self.1.arguments());
        }
        let (v0, v1) = self;
        v0.insert_into(args, scope) && v1.insert_into(args, scope)
    }
}

impl<T0: ArgBundle, T1: ArgBundle<Universe = T0::Universe>, T2: ArgBundle<Universe = T0::Universe>> ArgBundle for (T0, T1, T2) {
    type Universe = T0::Universe;

    open spec fn arguments(self) -> Seq<<T0::Universe as Component>::Model> {
        self.0.arguments() + self.1.arguments() + self.2.arguments()
    }

    fn insert_into(self, args: &mut QueryArgs<T0::Universe>, scope: Option<u64>) -> (fresh: bool) {
        let ghost before = args@;
        proof {
            lemma_bound_in_turn::<T0::Universe>(before, scope, self.0.arguments(), self.1.arguments());
            lemma_bound_in_turn::<T0::Universe>(before, scope, self.0.arguments() + self.1.arguments(), self.2.arguments());
        }
        let (v0, v1, v2) = self;
        v0.insert_into(args, scope) && v1.insert_into(args, scope) && v2.insert_into(args, scope)
    }
}

impl<T0: ArgBundle, T1: ArgBundle<Universe = T0::Universe>, T2: ArgBundle<Universe = T0::Universe>, T3: ArgBundle<Universe = T0::Universe>> ArgBundle for (T0, T1, T2, T3) {
    type Universe = T0::Universe;

    open spec fn arguments(self) -> Seq<<T0::Universe as Component>::Model> {
        self.0.arguments() + self.1.arguments() + self.2.arguments() + self.3.arguments()
    }

    fn insert_into(self, args: &mut QueryArgs<T0::Universe>, scope: Option<u64>) -> (fresh: bool) {
        let ghost before = args@;
        proof {
            lemma_bound_in_turn::<T0::Universe>(before, scope, self.0.arguments(), self.1.arguments());
            lemma_bound_in_turn::<T0::Universe>(before, scope, self.0.arguments() + self.1.arguments(), self.2.arguments());
            lemma_bound_in_turn::<T0::Universe>(before, scope, self.0.arguments() + self.1.arguments() + self.2.arguments(), self.3.arguments());
        }
        let (v0, v1, v2, v3) = self;
        v0.insert_into(args, scope) && v1.insert_into(args, scope) && v2.insert_into(args, scope) && v3.insert_into(args, scope)
    }
}

impl<T0: ArgBundle, T1: ArgBundle<Universe = T0::Universe>, T2: ArgBundle<Universe = T0::Universe>, T3: ArgBundle<Universe = T0::Universe>, T4: ArgBundle<Universe = T0::Universe>> ArgBundle for (T0, T1, T2, T3, T4) {
    type Universe = T0::Universe;

    open spec fn arguments(self) -> Seq<<T0::Universe as Component>::Model> {
        self.0.arguments() + self.1.arguments() + self.2.arguments() + self.3.arguments() + self.4.arguments()
    }

    fn insert_into(self, args: &mut QueryArgs<T0::Universe>, scope: Option<u64>) -> (fresh: bool) {
        let ghost before = args@;
        proof {
            lemma_bound_in_turn::<T0::Universe>(before, scope, self.0.arguments(), self.1.arguments());
            lemma_bound_in_turn::<T0::Universe>(before, scope, self.0.arguments() + self.1.arguments(), self.2.arguments());
            lemma_bound_in_turn::<T0::Universe>(before, scope, self.0.arguments() + self.1.arguments() + self.2.arguments(), self.3.arguments());
            lemma_bound_in_turn::<T0::Universe>(before, scope, self.0.arguments() + self.1.arguments() + self.2.arguments() + self.3.arguments(), self.4.arguments());
        }
        let (v0, v1, v2, v3, v4) = self;
        v0.insert_into(args, scope) && v1.insert_into(args, scope) && v2.insert_into(args, scope) && v3.insert_into(args, scope) && v4.insert_into(args, scope)
    }
}

impl<T0: ArgBundle, T1: ArgBundle<Universe = T0::Universe>, T2: ArgBundle<Universe = T0::Universe>, T3: ArgBundle<Universe = T0::Universe>, T4: ArgBundle<Universe = T0::Universe>, T5: ArgBundle<Universe = T0::Universe>> ArgBundle for (T0, T1, T2, T3, T4, T5) {
    type Universe = T0::Universe;

    open spec fn arguments(self) -> Seq<<T0::Universe as Component>::Model> {
        self.0.arguments() + self.1.arguments() + self.2.arguments() + self.3.arguments() + self.4.arguments() + self.5.arguments()
    }

    fn insert_into(self, args: &mut QueryArgs<T0::Universe>, scope: Option<u64>) -> (fresh: bool) {
        let ghost before = args@;
        proof {
            lemma_bound_in_turn::<T0::Universe>(before, scope, self.0.arguments(), self.1.arguments());
            lemma_bound_in_turn::<T0::Universe>(before, scope, self.0.arguments() + self.1.arguments(), self.2.arguments());
            lemma_bound_in_turn::<T0::Universe>(before, scope, self.0.arguments() + self.1.arguments() + self.2.arguments(), self.3.arguments());
            lemma_bound_in_turn::<T0::Universe>(before, scope, self.0.arguments() + self.1.arguments() + self.2.arguments() + self.3.arguments(), self.4.arguments());
            lemma_bound_in_turn::<T0::Universe>(before, scope, self.0.arguments() + self.1.arguments() + self.2.arguments() + self.3.arguments() + self.4.arguments(), self.5.arguments());
        }
        let (v0, v1, v2, v3, v4, v5) = self;
        v0.insert_into(args, scope) && v1.insert_into(args, scope) && v2.insert_into(args, scope) && v3.insert_into(args, scope) && v4.insert_into(args, scope) && v5.insert_into(args, scope)
    }
}

impl<T0: ArgBundle, T1: ArgBundle<Universe = T0::Universe>, T2: ArgBundle<Universe = T0::Universe>, T3: ArgBundle<Universe = T0::Universe>, T4: ArgBundle<Universe = T0::Universe>, T5: ArgBundle<Universe = T0::Universe>, T6: ArgBundle<Universe = T0::Universe>> ArgBundle for (T0, T1, T2, T3, T4, T5, T6) {
    type Universe = T0::Universe;

    open spec fn arguments(self) -> Seq<<T0::Universe as Component>::Model> {
        self.0.arguments() + self.1.arguments() + self.2.arguments() + self.3.arguments() + self.4.arguments() + self.5.arguments() + self.6.arguments()
    }

    fn insert_into(self, args: &mut QueryArgs<T0::Universe>, scope: Option<u64>) -> (fresh: bool) {
        let ghost before = args@;
        proof {
            lemma_bound_in_turn::<T0::Universe>(before, scope, self.0.arguments(), self.1.arguments());
            lemma_bound_in_turn::<T0::Universe>(before, scope, self.0.arguments() + self.1.arguments(), self.2.arguments());
            lemma_bound_in_turn::<T0::Universe>(before, scope, self.0.arguments() + self.1.arguments() + self.2.arguments(), self.3.arguments());
            lemma_bound_in_turn::<T0::Universe>(before, scope, self.0.arguments() + self.1.arguments() + self.2.arguments() + self.3.arguments(), self.4.arguments());
            lemma_bound_in_turn::<T0::Universe>(before, scope, self.0.arguments() + self.1.arguments() + self.2.arguments() + self.3.arguments() + self.4.arguments(), self.5.arguments());
            lemma_bound_in_turn::<T0::Universe>(before, scope, self.0.arguments() + self.1.arguments() + self.2.arguments() + self.3.arguments() + self.4.arguments() + self.5.arguments(), self.6.arguments());
        }
        let (v0, v1, v2, v3, v4, v5, v6) = self;
        v0.insert_into(args, scope) && v1.insert_into(args, scope) && v2.insert_into(args, scope) && v3.insert_into(args, scope) && v4.insert_into(args, scope) && v5.insert_into(args, scope) && v6.insert_into(args, scope)
    }
}

impl<T0: ArgBundle, T1: ArgBundle<Universe = T0::Universe>, T2: ArgBundle<Universe = T0::Universe>, T3: ArgBundle<Universe = T0::Universe>, T4: ArgBundle<Universe = T0::Universe>, T5: ArgBundle<Universe = T0::Universe>, T6: ArgBundle<Universe = T0::Universe>, T7: ArgBundle<Universe = T0::Universe>> ArgBundle for (T0, T1, T2, T3, T4, T5, T6, T7) {
    type Universe = T0::Universe;

    open spec fn arguments(self) -> Seq<<T0::Universe as Component>::Model> {
        self.0.arguments() + self.1.arguments() + self.2.arguments() + self.3.arguments() + self.4.arguments() + self.5.arguments() + self.6.arguments() + self.7.arguments()
    }

    fn insert_into(self, args: &mut QueryArgs<T0::Universe>, scope: Option<u64>) -> (fresh: bool) {
        let ghost before = args@;
        proof {
            lemma_bound_in_turn::<T0::Universe>(before, scope, self.0.arguments(), self.1.arguments());
            lemma_bound_in_turn::<T0::Universe>(before, scope, self.0.arguments() + self.1.arguments(), self.2.arguments());
            lemma_bound_in_turn::<T0::Universe>(before, scope, self.0.arguments() + self.1.arguments() + self.2.arguments(), self.3.arguments());
            lemma_bound_in_turn::<T0::Universe>(before, scope, self.0.arguments() + self.1.arguments() + self.2.arguments() + self.3.arguments(), self.4.arguments());
            lemma_bound_in_turn::<T0::Universe>(before, scope, self.0.arguments() + self.1.arguments() + self.2.arguments() + self.3.arguments() + self.4.arguments(), self.5.arguments());
            lemma_bound_in_turn::<T0::Universe>(before, scope, self.0.arguments() + self.1.arguments() + self.2.arguments() + self.3.arguments() + self.4.arguments() + self.5.arguments(), self.6.arguments());
            lemma_bound_in_turn::<T0::Universe>(before, scope, self.0.arguments() + self.1.arguments() + self.2.arguments() + self.3.arguments() + self.4.arguments() + self.5.arguments() + self.6.arguments(), self.7.arguments());
        }
        let (v0, v1, v2, v3, v4, v5, v6, v7) = self;
        v0.insert_into(args, scope) && v1.insert_into(args, scope) && v2.insert_into(args, scope) && v3.insert_into(args, scope) && v4.insert_into(args, scope) && v5.insert_into(args, scope) && v6.insert_into(args, scope) && v7.insert_into(args, scope)
    }
}

/// What a filter decides about rows, given its arguments. An argument that a
/// decision needs and that is not bound is reported by its component type.
pub trait FilterExpr<C: ComparableComponent>: Sized {
    /// Whether `entity` passes.
    spec fn verdict(
        world: WorldModel<C>,
        args: ArgMap<C>,
        scope: Option<u64>,
        entity: Entity,
    ) -> Result<bool, ComponentId>;

    /// The only entities that can pass, as far as an index tells.
    spec fn narrowed(world: WorldModel<C>, args: ArgMap<C>, scope: Option<u64>) -> Result<
        Option<Seq<Entity>>,
        ComponentId,
    >;

    /// Narrowing loses nothing, and lists entities in ascending order.
    proof fn narrowing_laws(
        world: WorldModel<C>,
        args: ArgMap<C>,
        scope: Option<u64>,
        entity: Entity,
    )
        requires
            world.consistent(),
            well_typed::<C>(args),
        ensures
            Self::narrowed(world, args, scope) matches Ok(Some(list)) ==> ascending(ids(list))
                && (Self::verdict(world, args, scope, entity) == Ok::<bool, ComponentId>(true)
                ==> list.contains(entity)),
    ;

    /// Whether `entity` passes.
    fn matches(entity: Entity, snapshot: &World<C>, args: &QueryArgs<C>, scope: Option<u64>) -> (passes:
        Result<bool, ComponentId>)
        requires
            snapshot.wf(),
            args.wf(),
        ensures
            passes == Self::verdict(snapshot@, args@, scope, entity),
    ;

    /// The only entities that can pass, as far as an index tells.
    fn candidates(snapshot: &World<C>, args: &QueryArgs<C>, scope: Option<u64>) -> (list: Result<
        Option<Vec<Entity>>,
        ComponentId,
    >)
        requires
            snapshot.wf(),
            args.wf(),
        ensures
            match list {
                Ok(Some(list)) => Self::narrowed(snapshot@, args@, scope) == Ok::<
                    Option<Seq<Entity>>,
                    ComponentId,
                >(Some(list@)),
                Ok(None) => Self::narrowed(snapshot@, args@, scope) == Ok::<
                    Option<Seq<Entity>>,
                    ComponentId,
                >(None),
                Err(kind) => Self::narrowed(snapshot@, args@, scope) == Err::<
                    Option<Seq<Entity>>,
                    ComponentId,
                >(kind),
            },
    ;
}

/// The entities that carry `kind`, ascending.
pub open spec fn carriers<C: RelationshipTarget>(world: WorldModel<C>, kind: ComponentId) -> Seq<
    Entity,
> {
    as_entities(sorted_keys(world.column(kind).entries.dom()))
}

proof fn lemma_listed(keys: Set<u64>, entity: Entity)
    ensures
        ascending(ids(as_entities(sorted_keys(keys)))),
        as_entities(sorted_keys(keys)).contains(entity) <==> keys.contains(entity.id()),
{
    crate::model::lemma_sorted_keys_list(keys);
    let raw = sorted_keys(keys);
    let list = as_entities(raw);
    assert(ids(list) =~= raw);
    if list.contains(entity) {
        let i = choose|i: int| 0 <= i < list.len() && list[i] == entity;
        assert(raw[i] == entity.id());
        assert(raw.to_set().contains(entity.id()));
    }
    if keys.contains(entity.id()) {
        assert(raw.to_set().contains(entity.id()));
        let i = choose|i: int| 0 <= i < raw.len() && raw[i] == entity.id();
        crate::entity::lemma_entity_is_its_id(list[i], entity);
    }
}

impl<C: ComparableComponent, T: ComponentType<Universe = C>> FilterExpr<C> for crate::query::Eq<T> {
    open spec fn verdict(
        world: WorldModel<C>,
        args: ArgMap<C>,
        scope: Option<u64>,
        entity: Entity,
    ) -> Result<bool, ComponentId> {
        match world.entry(T::key(), entity) {
            None => Ok(false),
            Some(entry) => match argument::<C>(args, scope, T::key()) {
                Some(value) => Ok(C::equal(entry.value, value)),
                None => Err(T::key()),
            },
        }
    }

    open spec fn narrowed(world: WorldModel<C>, args: ArgMap<C>, scope: Option<u64>) -> Result<
        Option<Seq<Entity>>,
        ComponentId,
    > {
        match argument::<C>(args, scope, T::key()) {
            None => Err(T::key()),
            Some(value) => match C::stamp(value) {
                Some(stamp) => Ok(
                    Some(
                        as_entities(sorted_keys(stamped_with(world.column(T::key()), stamp))),
                    ),
                ),
                None => Ok(None),
            },
        }
    }

    proof fn narrowing_laws(
        world: WorldModel<C>,
        args: ArgMap<C>,
        scope: Option<u64>,
        entity: Entity,
    ) {
        if let Some(value) = argument::<C>(args, scope, T::key()) {
            if let Some(stamp) = C::stamp(value) {
                let keys = stamped_with(world.column(T::key()), stamp);
                lemma_listed(keys, entity);
                if Self::verdict(world, args, scope, entity) == Ok::<bool, ComponentId>(true) {
                    let entry = world.entry(T::key(), entity)->0;
                    assert(entry == world.stores[T::key()].entries[entity.id()]);
                    C::equal_laws(entry.value, value);
                }
            }
        }
    }

    fn matches(entity: Entity, snapshot: &World<C>, args: &QueryArgs<C>, scope: Option<u64>) -> (passes:
        Result<bool, ComponentId>) {
        let kind = T::component_type();
        match snapshot.get(kind, entity) {
            None => Ok(false),
            Some(value) => match args.get(scope, kind) {
                Some(wanted) => Ok(value.equals(wanted)),
                None => Err(kind),
            },
        }
    }

    fn candidates(snapshot: &World<C>, args: &QueryArgs<C>, scope: Option<u64>) -> (list: Result<
        Option<Vec<Entity>>,
        ComponentId,
    >) {
        let kind = T::component_type();
        match args.get(scope, kind) {
            None => Err(kind),
            Some(wanted) => match wanted.fingerprint() {
                Some(stamp) => Ok(Some(snapshot.fingerprint_candidates(kind, stamp))),
                None => Ok(None),
            },
        }
    }
}

impl<C: ComparableComponent, T: ComponentType<Universe = C>> FilterExpr<C> for Gte<T> {
    open spec fn verdict(
        world: WorldModel<C>,
        args: ArgMap<C>,
        scope: Option<u64>,
        entity: Entity,
    ) -> Result<bool, ComponentId> {
        match world.entry(T::key(), entity) {
            None => Ok(false),
            Some(entry) => match argument::<C>(args, scope, T::key()) {
                Some(value) => Ok(C::at_least(entry.value, value)),
                None => Err(T::key()),
            },
        }
    }

    open spec fn narrowed(world: WorldModel<C>, args: ArgMap<C>, scope: Option<u64>) -> Result<
        Option<Seq<Entity>>,
        ComponentId,
    > {
        Ok(None)
    }

    proof fn narrowing_laws(
        world: WorldModel<C>,
        args: ArgMap<C>,
        scope: Option<u64>,
        entity: Entity,
    ) {
    }

    fn matches(entity: Entity, snapshot: &World<C>, args: &QueryArgs<C>, scope: Option<u64>) -> (passes:
        Result<bool, ComponentId>) {
        let kind = T::component_type();
        match snapshot.get(kind, entity) {
            None => Ok(false),
            Some(value) => match args.get(scope, kind) {
                Some(wanted) => Ok(value.is_at_least(wanted)),
                None => Err(kind),
            },
        }
    }

    fn candidates(snapshot: &World<C>, args: &QueryArgs<C>, scope: Option<u64>) -> (list: Result<
        Option<Vec<Entity>>,
        ComponentId,
    >) {
        Ok(None)
    }
}

impl<C: ComparableComponent, T: ComponentType<Universe = C>> FilterExpr<C> for With<T> {
    open spec fn verdict(
        world: WorldModel<C>,
        args: ArgMap<C>,
        scope: Option<u64>,
        entity: Entity,
    ) -> Result<bool, ComponentId> {
        Ok(world.has(T::key(), entity))
    }

    open spec fn narrowed(world: WorldModel<C>, args: ArgMap<C>, scope: Option<u64>) -> Result<
        Option<Seq<Entity>>,
        ComponentId,
    > {
        Ok(Some(carriers(world, T::key())))
    }

    proof fn narrowing_laws(
        world: WorldModel<C>,
        args: ArgMap<C>,
        scope: Option<u64>,
        entity: Entity,
    ) {
        lemma_listed(world.column(T::key()).entries.dom(), entity);
    }

    fn matches(entity: Entity, snapshot: &World<C>, args: &QueryArgs<C>, scope: Option<u64>) -> (passes:
        Result<bool, ComponentId>) {
        Ok(snapshot.has(T::component_type(), entity))
    }

    fn candidates(snapshot: &World<C>, args: &QueryArgs<C>, scope: Option<u64>) -> (list: Result<
        Option<Vec<Entity>>,
        ComponentId,
    >) {
        Ok(Some(snapshot.entities_with(T::component_type())))
    }
}

impl<C: ComparableComponent, T: ComponentType<Universe = C>> FilterExpr<C> for Without<T> {
    open spec fn verdict(
        world: WorldModel<C>,
        args: ArgMap<C>,
        scope: Option<u64>,
        entity: Entity,
    ) -> Result<bool, ComponentId> {
        Ok(!world.has(T::key(), entity))
    }

    open spec fn narrowed(world: WorldModel<C>, args: ArgMap<C>, scope: Option<u64>) -> Result<
        Option<Seq<Entity>>,
        ComponentId,
    > {
        Ok(None)
    }

    proof fn narrowing_laws(
        world: WorldModel<C>,
        args: ArgMap<C>,
        scope: Option<u64>,
        entity: Entity,
    ) {
    }

    fn matches(entity: Entity, snapshot: &World<C>, args: &QueryArgs<C>, scope: Option<u64>) -> (passes:
        Result<bool, ComponentId>) {
        Ok(!snapshot.has(T::component_type(), entity))
    }

    fn candidates(snapshot: &World<C>, args: &QueryArgs<C>, scope: Option<u64>) -> (list: Result<
        Option<Vec<Entity>>,
        ComponentId,
    >) {
        Ok(None)
    }
}

impl<C: ComparableComponent, A: FilterExpr<C>, B: FilterExpr<C>> FilterExpr<C> for And<A, B> {
    open spec fn verdict(
        world: WorldModel<C>,
        args: ArgMap<C>,
        scope: Option<u64>,
        entity: Entity,
    ) -> Result<bool, ComponentId> {
        match A::verdict(world, args, scope, entity) {
            Ok(true) => B::verdict(world, args, scope, entity),
            other => other,
        }
    }

    open spec fn narrowed(world: WorldModel<C>, args: ArgMap<C>, scope: Option<u64>) -> Result<
        Option<Seq<Entity>>,
        ComponentId,
    > {
        match A::narrowed(world, args, scope) {
            Ok(None) => B::narrowed(world, args, scope),
            other => other,
        }
    }

    proof fn narrowing_laws(
        world: WorldModel<C>,
        args: ArgMap<C>,
        scope: Option<u64>,
        entity: Entity,
    ) {
        A::narrowing_laws(world, args, scope, entity);
        B::narrowing_laws(world, args, scope, entity);
    }

    fn matches(entity: Entity, snapshot: &World<C>, args: &QueryArgs<C>, scope: Option<u64>) -> (passes:
        Result<bool, ComponentId>) {
        match A::matches(entity, snapshot, args, scope) {
            Ok(true) => B::matches(entity, snapshot, args, scope),
            other => other,
        }
    }

    fn candidates(snapshot: &World<C>, args: &QueryArgs<C>, scope: Option<u64>) -> (list: Result<
        Option<Vec<Entity>>,
        ComponentId,
    >) {
        match A::candidates(snapshot, args, scope) {
            Ok(None) => B::candidates(snapshot, args, scope),
            other => other,
        }
    }
}

impl<C: ComparableComponent, A: FilterExpr<C>, B: FilterExpr<C>> FilterExpr<C> for Or<A, B> {
    open spec fn verdict(
        world: WorldModel<C>,
        args: ArgMap<C>,
        scope: Option<u64>,
        entity: Entity,
    ) -> Result<bool, ComponentId> {
        match A::verdict(world, args, scope, entity) {
            Ok(false) => B::verdict(world, args, scope, entity),
            other => other,
        }
    }

    open spec fn narrowed(world: WorldModel<C>, args: ArgMap<C>, scope: Option<u64>) -> Result<
        Option<Seq<Entity>>,
        ComponentId,
    > {
        Ok(None)
    }

    proof fn narrowing_laws(
        world: WorldModel<C>,
        args: ArgMap<C>,
        scope: Option<u64>,
        entity: Entity,
    ) {
    }

    fn matches(entity: Entity, snapshot: &World<C>, args: &QueryArgs<C>, scope: Option<u64>) -> (passes:
        Result<bool, ComponentId>) {
        match A::matches(entity, snapshot, args, scope) {
            Ok(false) => B::matches(entity, snapshot, args, scope),
            other => other,
        }
    }

    fn candidates(snapshot: &World<C>, args: &QueryArgs<C>, scope: Option<u64>) -> (list: Result<
        Option<Vec<Entity>>,
        ComponentId,
    >) {
        Ok(None)
    }
}

impl<C: ComparableComponent, F: FilterExpr<C>> FilterExpr<C> for Not<F> {
    open spec fn verdict(
        world: WorldModel<C>,
        args: ArgMap<C>,
        scope: Option<u64>,
        entity: Entity,
    ) -> Result<bool, ComponentId> {
        match F::verdict(world, args, scope, entity) {
            Ok(passes) => Ok(!passes),
            Err(kind) => Err(kind),
        }
    }

    open spec fn narrowed(world: WorldModel<C>, args: ArgMap<C>, scope: Option<u64>) -> Result<
        Option<Seq<Entity>>,
        ComponentId,
    > {
        Ok(None)
    }

    proof fn narrowing_laws(
        world: WorldModel<C>,
        args: ArgMap<C>,
        scope: Option<u64>,
        entity: Entity,
    ) {
    }

    fn matches(entity: Entity, snapshot: &World<C>, args: &QueryArgs<C>, scope: Option<u64>) -> (passes:
        Result<bool, ComponentId>) {
        match F::matches(entity, snapshot, args, scope) {
            Ok(passes) => Ok(!passes),
            Err(kind) => Err(kind),
        }
    }

    fn candidates(snapshot: &World<C>, args: &QueryArgs<C>, scope: Option<u64>) -> (list: Result<
        Option<Vec<Entity>>,
        ComponentId,
    >) {
        Ok(None)
    }
}

/// Filter of external read-only queries: none, a runtime expression, or the
/// presence of a component.
pub trait ExternalQueryFilter<C: ComparableComponent>: Sized {
    /// The expression the filter stands for.
    type Expr: FilterExpr<C>;
}

/// The filter that everything passes.
pub struct Always;

impl<C: ComparableComponent> FilterExpr<C> for Always {
    open spec fn verdict(
        world: WorldModel<C>,
        args: ArgMap<C>,
        scope: Option<u64>,
        entity: Entity,
    ) -> Result<bool, ComponentId> {
        Ok(true)
    }

    open spec fn narrowed(world: WorldModel<C>, args: ArgMap<C>, scope: Option<u64>) -> Result<
        Option<Seq<Entity>>,
        ComponentId,
    > {
        Ok(None)
    }

    proof fn narrowing_laws(
        world: WorldModel<C>,
        args: ArgMap<C>,
        scope: Option<u64>,
        entity: Entity,
    ) {
    }

    fn matches(entity: Entity, snapshot: &World<C>, args: &QueryArgs<C>, scope: Option<u64>) -> (passes:
        Result<bool, ComponentId>) {
        Ok(true)
    }

    fn candidates(snapshot: &World<C>, args: &QueryArgs<C>, scope: Option<u64>) -> (list: Result<
        Option<Vec<Entity>>,
        ComponentId,
    >) {
        Ok(None)
    }
}

impl<C: ComparableComponent> ExternalQueryFilter<C> for () {
    type Expr = Always;
}

impl<C: ComparableComponent, F: FilterExpr<C>> ExternalQueryFilter<C> for Where<F> {
    type Expr = F;
}

impl<C: ComparableComponent, T: ComponentType<Universe = C>> ExternalQueryFilter<C> for With<T> {
    type Expr = With<T>;
}

impl<C: ComparableComponent, T: ComponentType<Universe = C>> ExternalQueryFilter<C> for Without<T> {
    type Expr = Without<T>;
}

/// The rows that pass, in order; the first row that cannot be decided ends it.
pub open spec fn passing<C: ComparableComponent, F: FilterExpr<C>>(
    world: WorldModel<C>,
    args: ArgMap<C>,
    scope: Option<u64>,
    rows: Seq<Entity>,
) -> Result<Seq<Entity>, ComponentId>
    decreases rows.len(),
{
    if rows.len() == 0 {
        Ok(Seq::empty())
    } else {
        match passing::<C, F>(world, args, scope, rows.drop_last()) {
            Err(kind) => Err(kind),
            Ok(kept) => match F::verdict(world, args, scope, rows.last()) {
                Err(kind) => Err(kind),
                Ok(true) => Ok(kept.push(rows.last())),
                Ok(false) => Ok(kept),
            },
        }
    }
}

/// The rows that a filtered query looks at: the candidates that an index gives,
/// else all rows.
pub open spec fn looked_at<C: ComparableComponent, F: FilterExpr<C>>(
    world: WorldModel<C>,
    query: QueryModel,
    args: ArgMap<C>,
    scope: Option<u64>,
) -> Result<Seq<Entity>, ComponentId> {
    match F::narrowed(world, args, scope) {
        Err(kind) => Err(kind),
        Ok(Some(list)) => Ok(query.kept(world, list)),
        Ok(None) => Ok(query.rows(world)),
    }
}

/// The rows of a query that pass a filter.
pub open spec fn filtered<C: ComparableComponent, F: FilterExpr<C>>(
    world: WorldModel<C>,
    query: QueryModel,
    args: ArgMap<C>,
    scope: Option<u64>,
) -> Result<Seq<Entity>, ComponentId> {
    match looked_at::<C, F>(world, query, args, scope) {
        Err(kind) => Err(kind),
        Ok(rows) => passing::<C, F>(world, args, scope, rows),
    }
}

proof fn lemma_failed_row<C: ComparableComponent, F: FilterExpr<C>>(
    world: WorldModel<C>,
    args: ArgMap<C>,
    scope: Option<u64>,
    rows: Seq<Entity>,
    done: int,
)
    requires
        0 <= done <= rows.len(),
        passing::<C, F>(world, args, scope, rows.take(done)) is Err,
    ensures
        passing::<C, F>(world, args, scope, rows) == passing::<C, F>(
            world,
            args,
            scope,
            rows.take(done),
        ),
    decreases rows.len() - done,
{
    if done == rows.len() {
        assert(rows.take(done) =~= rows);
    } else {
        assert(rows.take(done + 1).drop_last() =~= rows.take(done));
        lemma_failed_row::<C, F>(world, args, scope, rows, done + 1);
    }
}

fn keep_passing<C: ComparableComponent, F: FilterExpr<C>>(
    world: &World<C>,
    args: &QueryArgs<C>,
    scope: Option<u64>,
    rows: &Vec<Entity>,
) -> (kept: Result<Vec<Entity>, ComponentId>)
    requires
        world.wf(),
        args.wf(),
    ensures
        match kept {
            Ok(kept) => passing::<C, F>(world@, args@, scope, rows@) == Ok::<
                Seq<Entity>,
                ComponentId,
            >(kept@),
            Err(kind) => passing::<C, F>(world@, args@, scope, rows@) == Err::<
                Seq<Entity>,
                ComponentId,
            >(kind),
        },
{
    let mut kept: Vec<Entity> = Vec::new();
    let mut i: usize = 0;
    assert(rows@.take(0) =~= Seq::<Entity>::empty());
    while i < rows.len()
        invariant
            world.wf(),
            args.wf(),
            i <= rows@.len(),
            passing::<C, F>(world@, args@, scope, rows@.take(i as int)) == Ok::<
                Seq<Entity>,
                ComponentId,
            >(kept@),
        decreases rows@.len() - i,
    {
        assert(rows@.take(i + 1).drop_last() =~= rows@.take(i as int));
        assert(rows@.take(i + 1).last() == rows@[i as int]);
        match F::matches(rows[i], world, args, scope) {
            Ok(true) => {
                kept.push(rows[i]);
            },
            Ok(false) => {},
            Err(kind) => {
                proof {
                    lemma_failed_row::<C, F>(world@, args@, scope, rows@, i + 1);
                }
                return Err(kind);
            },
        }
        i = i + 1;
    }
    assert(rows@.take(rows@.len() as int) =~= rows@);
    Ok(kept)
}

/// The rows of a query that pass a filter, looked up through an index where the
/// filter allows it. An argument that is needed and not bound is reported.
pub fn external_filtered_rows<C: ComparableComponent, F: FilterExpr<C>>(
    world: &World<C>,
    query: &RowQuery,
    args: &QueryArgs<C>,
    scope: Option<u64>,
) -> (rows: Result<Vec<Entity>, ComponentId>)
    requires
        world.wf(),
        args.wf(),
    ensures
        match rows {
            Ok(rows) => filtered::<C, F>(world@, query@, args@, scope) == Ok::<
                Seq<Entity>,
                ComponentId,
            >(rows@),
            Err(kind) => filtered::<C, F>(world@, query@, args@, scope) == Err::<
                Seq<Entity>,
                ComponentId,
            >(kind),
        },
{
    let rows = match F::candidates(world, args, scope) {
        Err(kind) => {
            return Err(kind);
        },
        Ok(Some(list)) => query.rows_from_candidates(world, &list),
        Ok(None) => query.rows(world),
    };
    keep_passing::<C, F>(world, args, scope, &rows)
}

/// The revisions of `kind` on `rows`.
pub open spec fn with_revisions<C: RelationshipTarget>(
    world: WorldModel<C>,
    kind: ComponentId,
    rows: Seq<Entity>,
) -> Seq<(Entity, Option<u64>)> {
    rows.map_values(
        |row: Entity|
            (
                row,
                match world.entry(kind, row) {
                    Some(entry) => Some(entry.revision),
                    None => None::<u64>,
                },
            ),
    )
}

/// The rows of a filtered query with the revision of `kind` on each: what a
/// caller needs to mutate a row only if it has not moved on.
pub fn external_mut_rows<C: ComparableComponent, F: FilterExpr<C>>(
    world: &World<C>,
    kind: ComponentId,
    query: &RowQuery,
    args: &QueryArgs<C>,
    scope: Option<u64>,
) -> (rows: Result<Vec<(Entity, Option<u64>)>, ComponentId>)
    requires
        world.wf(),
        args.wf(),
    ensures
        match rows {
            Ok(rows) => filtered::<C, F>(world@, query@, args@, scope) matches Ok(found) && rows@
                == with_revisions(world@, kind, found),
            Err(missing) => filtered::<C, F>(world@, query@, args@, scope) == Err::<
                Seq<Entity>,
                ComponentId,
            >(missing),
        },
{
    let found = match external_filtered_rows::<C, F>(world, query, args, scope) {
        Ok(found) => found,
        Err(missing) => {
            return Err(missing);
        },
    };
    let mut rows: Vec<(Entity, Option<u64>)> = Vec::new();
    let mut i: usize = 0;
    while i < found.len()
        invariant
            i <= found@.len(),
            rows@ =~= with_revisions(world@, kind, found@).take(i as int),
        decreases found@.len() - i,
    {
        rows.push((found[i], world.revision(kind, found[i])));
        i = i + 1;
    }
    assert(rows@ =~= with_revisions(world@, kind, found@));
    Ok(rows)
}

/// Whether one of a row's tracked components changed after `cursor`.
pub open spec fn changed_after<C: RelationshipTarget>(
    world: WorldModel<C>,
    query: QueryModel,
    row: Entity,
    cursor: u64,
) -> bool {
    exists|i: int|
        0 <= i < query.deps(world, row).len() && (#[trigger] query.deps(world, row)[i]).revision
            > cursor
}

/// The rows whose tracked components changed after `cursor`, in order.
pub open spec fn changed_rows<C: RelationshipTarget>(
    world: WorldModel<C>,
    query: QueryModel,
    rows: Seq<Entity>,
    cursor: u64,
) -> Seq<Entity>
    decreases rows.len(),
{
    if rows.len() == 0 {
        Seq::empty()
    } else {
        let rest = changed_rows(world, query, rows.drop_last(), cursor);
        if changed_after(world, query, rows.last(), cursor) {
            rest.push(rows.last())
        } else {
            rest
        }
    }
}

/// Keeps the rows whose tracked components changed after `cursor`: the delta
/// source for state-sync readers.
pub fn changed_since<C: RelationshipTarget>(
    world: &World<C>,
    query: &RowQuery,
    rows: &Vec<Entity>,
    cursor: u64,
) -> (changed: Vec<Entity>)
    requires
        forall|i: int| 0 <= i < rows@.len() ==> query@.admits(world@, #[trigger] rows@[i]),
    ensures
        changed@ == changed_rows(world@, query@, rows@, cursor),
{
    let mut changed: Vec<Entity> = Vec::new();
    let mut i: usize = 0;
    assert(rows@.take(0) =~= Seq::<Entity>::empty());
    while i < rows.len()
        invariant
            i <= rows@.len(),
            forall|j: int| 0 <= j < rows@.len() ==> query@.admits(world@, #[trigger] rows@[j]),
            changed@ == changed_rows(world@, query@, rows@.take(i as int), cursor),
        decreases rows@.len() - i,
    {
        assert(rows@.take(i + 1).drop_last() =~= rows@.take(i as int));
        assert(query@.admits(world@, rows@[i as int]));
        let deps = query.deps(world, rows[i]);
        let mut newer = false;
        let mut j: usize = 0;
        while j < deps.len()
            invariant
                j <= deps@.len(),
                newer == exists|n: int| 0 <= n < j && (#[trigger] deps@[n]).revision > cursor,
            decreases deps@.len() - j,
        {
            if deps[j].revision_raw() > cursor {
                assert(deps@[j as int].revision > cursor);
                newer = true;
            }
            j = j + 1;
        }
        if newer {
            changed.push(rows[i]);
        }
        i = i + 1;
    }
    assert(rows@.take(rows@.len() as int) =~= rows@);
    changed
}

/// What passes: exactly the rows that the filter lets through, ascending when the
/// rows are.
pub proof fn lemma_passing<C: ComparableComponent, F: FilterExpr<C>>(
    world: WorldModel<C>,
    args: ArgMap<C>,
    scope: Option<u64>,
    rows: Seq<Entity>,
)
    requires
        passing::<C, F>(world, args, scope, rows) is Ok,
    ensures
        forall|entity: Entity| #[trigger]
            passing::<C, F>(world, args, scope, rows)->Ok_0.contains(entity) <==> (rows.contains(
                entity,
            ) && F::verdict(world, args, scope, entity) == Ok::<bool, ComponentId>(true)),
        ascending(ids(rows)) ==> ascending(
            ids(passing::<C, F>(world, args, scope, rows)->Ok_0),
        ),
    decreases rows.len(),
{
    if rows.len() > 0 {
        let rest = rows.drop_last();
        let last = rows.last();
        lemma_passing::<C, F>(world, args, scope, rest);
        let fewer = passing::<C, F>(world, args, scope, rest)->Ok_0;
        let all = passing::<C, F>(world, args, scope, rows)->Ok_0;
        assert forall|entity: Entity| #[trigger] all.contains(entity) <==> (rows.contains(entity)
            && F::verdict(world, args, scope, entity) == Ok::<bool, ComponentId>(true)) by {
            assert(rows.contains(entity) <==> (rest.contains(entity) || entity == last)) by {
                if rest.contains(entity) {
                    let j = choose|j: int| 0 <= j < rest.len() && rest[j] == entity;
                    assert(rows[j] == entity);
                }
                if rows.contains(entity) {
                    let j = choose|j: int| 0 <= j < rows.len() && rows[j] == entity;
                    if j < rest.len() {
                        assert(rest[j] == entity);
                    }
                }
                assert(rows[rows.len() - 1] == last);
            }
            if fewer.contains(entity) {
                let j = choose|j: int| 0 <= j < fewer.len() && fewer[j] == entity;
                assert(all[j] == entity);
            }
            if all.contains(entity) {
                let j = choose|j: int| 0 <= j < all.len() && all[j] == entity;
                if j < fewer.len() {
                    assert(fewer[j] == entity);
                    assert(fewer.contains(entity));
                }
            }
            if F::verdict(world, args, scope, last) == Ok::<bool, ComponentId>(true) {
                assert(all[fewer.len() as int] == last);
            }
        }
        if ascending(ids(rows)) {
            assert forall|i: int, j: int| 0 <= i < j < ids(rest).len() implies ids(rest)[i]
                < ids(rest)[j] by {
                assert(ids(rows)[i] < ids(rows)[j]);
            }
            assert forall|i: int, j: int| 0 <= i < j < ids(all).len() implies ids(all)[i]
                < ids(all)[j] by {
                if j < fewer.len() {
                    assert(ids(fewer)[i] < ids(fewer)[j]);
                } else {
                    assert(fewer.contains(fewer[i]));
                    let n = choose|n: int| 0 <= n < rest.len() && rest[n] == fewer[i];
                    assert(ids(rows)[n] < ids(rows)[rows.len() - 1]);
                }
            }
        }
    }
}

/// Looking rows up through an index changes nothing: what a filtered query
/// returns is, in ascending order, every row of the query that the filter lets
/// through.
pub proof fn lemma_index_changes_nothing<C: ComparableComponent, F: FilterExpr<C>>(
    world: WorldModel<C>,
    query: QueryModel,
    args: ArgMap<C>,
    scope: Option<u64>,
    entity: Entity,
)
    requires
        world.consistent(),
        well_typed::<C>(args),
        query.needs().len() > 0,
        filtered::<C, F>(world, query, args, scope) is Ok,
    ensures
        ascending(ids(filtered::<C, F>(world, query, args, scope)->Ok_0)),
        filtered::<C, F>(world, query, args, scope)->Ok_0.contains(entity) <==> (query.rows(
            world,
        ).contains(entity) && F::verdict(world, args, scope, entity) == Ok::<bool, ComponentId>(
            true,
        )),
{
    let rows = looked_at::<C, F>(world, query, args, scope)->Ok_0;
    lemma_passing::<C, F>(world, args, scope, rows);
    F::narrowing_laws(world, args, scope, entity);
    crate::query::lemma_rows_list(query, world);
    crate::entity::lemma_entity_is_its_id(Entity::of(entity.id()), entity);
    if let Ok(Some(list)) = F::narrowed(world, args, scope) {
        crate::query::lemma_kept(query, world, list);
    }
}

/// A filter and its negation divide the rows that they can decide.
pub proof fn lemma_negation_divides<C: ComparableComponent, F: FilterExpr<C>>(
    world: WorldModel<C>,
    args: ArgMap<C>,
    scope: Option<u64>,
    entity: Entity,
)
    requires
        F::verdict(world, args, scope, entity) is Ok,
    ensures
        (F::verdict(world, args, scope, entity) == Ok::<bool, ComponentId>(true)) != (<Not<
            F,
        > as FilterExpr<C>>::verdict(world, args, scope, entity) == Ok::<bool, ComponentId>(true)),
{
}

/// Negating a conjunction is the disjunction of the negations.
pub proof fn lemma_negated_conjunction<
    C: ComparableComponent,
    A: FilterExpr<C>,
    B: FilterExpr<C>,
>(world: WorldModel<C>, args: ArgMap<C>, scope: Option<u64>, entity: Entity)
    ensures
        <Not<And<A, B>> as FilterExpr<C>>::verdict(world, args, scope, entity) == <Or<
            Not<A>,
            Not<B>,
        > as FilterExpr<C>>::verdict(world, args, scope, entity),
{
}

} // verus!
