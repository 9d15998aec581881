//! Running one system of a database.

use crate::component::Component;
use crate::entity::Entity;
use crate::invocation::{
    copy_entities, without_invocation, Invocation, InvocationMap, SystemId, SystemInvocation,
};
use crate::pipeline::commands::{ops_view, CommandOp, Commands, OpModel};
use crate::pipeline::odometer::{
    advance_indices, combination, in_range, lemma_combination_of_number,
    lemma_number_below_total, number, total,
};
use crate::pipeline::rows::{shapes_view, GoneComponent, RowShape, ShapeModel};
use crate::pipeline::tables::{invocations_view, SweepModel, Tables, TablesModel};
use crate::query::Dep;
use crate::world::ids;
use vstd::prelude::*;

verus! {

/// What an invocation observed when it last ran.
pub struct Observed {
    pub deps: Vec<Dep>,
}

impl View for Observed {
    type V = Seq<Dep>;

    open spec fn view(&self) -> Seq<Dep> {
        self.deps@
    }
}

/// The body of a system: which rows it runs for, and what it writes for one of
/// them. It may have a state of its own: two runs on the same database and row need
/// not write the same.
///
/// By default a body has no queries, and nothing is promised of what it writes; an
/// implementation says otherwise in `shapes` and `writes`.
pub trait SystemBody<C: Component>: Sized {
    /// The row shapes of the system's queries.
    open spec fn shapes(&self) -> Seq<ShapeModel> {
        Seq::empty()
    }

    /// Whether the system can write `ops` for one combination of rows.
    open spec fn writes(
        &self,
        tables: TablesModel<C>,
        keys: Seq<Entity>,
        ops: Seq<OpModel<C>>,
    ) -> bool {
        true
    }

    /// The row shapes of the system's queries.
    fn queries(&self) -> (queries: Vec<RowShape>)
        ensures
            shapes_view(queries@) == self.shapes(),
            forall|i: int| 0 <= i < queries@.len() ==> (#[trigger] queries@[i])@.wf(),
    ;

    /// Runs the system for one combination of rows; `keys` holds one entity per
    /// query. What it writes goes behind what is buffered already.
    fn run(&self, tables: &Tables<C>, keys: &Vec<Entity>, commands: &mut Commands<C>)
        ensures
            added(old(commands)@, final(commands)@) matches Some(ops) && self.writes(
                tables@,
                keys@,
                ops,
            ),
    ;
}

/// What stands behind `before` in `after`, if `after` starts with it.
pub open spec fn added<C: Component>(before: Seq<OpModel<C>>, after: Seq<OpModel<C>>) -> Option<
    Seq<OpModel<C>>,
> {
    if before.is_prefix_of(after) {
        Some(after.skip(before.len() as int))
    } else {
        None
    }
}

/// What a database holds besides its systems.
#[verifier::ext_equal]
#[verifier::reject_recursive_types(C)]
pub struct DataModel<C: Component> {
    pub tables: TablesModel<C>,
    pub memo: Map<Invocation, Seq<Dep>>,
    pub order: Seq<Invocation>,
}

/// The rows of each query.
pub open spec fn row_lists<C: Component>(
    shapes: Seq<ShapeModel>,
    tables: TablesModel<C>,
) -> Seq<Seq<u64>> {
    shapes.map_values(|shape: ShapeModel| shape.rows(tables))
}

/// How many rows each query has.
pub open spec fn lengths_of(lists: Seq<Seq<u64>>) -> Seq<usize> {
    lists.map_values(|list: Seq<u64>| list.len() as usize)
}

/// How many combinations of rows there are.
pub open spec fn combinations(lists: Seq<Seq<u64>>) -> nat {
    total(lengths_of(lists), lists.len())
}

/// The rows of a combination.
pub open spec fn picked(lists: Seq<Seq<u64>>, indices: Seq<usize>) -> Seq<Entity> {
    Seq::new(lists.len(), |q: int| Entity::of(lists[q][indices[q] as int]))
}

/// The rows of the combination of a number.
pub open spec fn keys_at(lists: Seq<Seq<u64>>, n: nat) -> Seq<Entity> {
    picked(lists, combination(lengths_of(lists), n))
}

/// What an invocation observes of its rows.
pub open spec fn observed<C: Component>(
    shapes: Seq<ShapeModel>,
    tables: TablesModel<C>,
    keys: Seq<Entity>,
    count: nat,
) -> Result<Seq<Dep>, GoneComponent>
    decreases count,
{
    if count == 0 {
        Ok(Seq::empty())
    } else {
        match observed(shapes, tables, keys, (count - 1) as nat) {
            Err(gone) => Err(gone),
            Ok(before) => match shapes[count - 1].deps(tables, keys[count - 1]) {
                Err(gone) => Err(gone),
                Ok(deps) => Ok(before + deps),
            },
        }
    }
}

/// The first component that one of the rows lost.
pub open spec fn first_gone<C: Component>(
    shapes: Seq<ShapeModel>,
    tables: TablesModel<C>,
    keys: Seq<Entity>,
    from: int,
) -> Option<GoneComponent>
    decreases shapes.len() - from,
{
    if from < 0 || from >= shapes.len() {
        None
    } else {
        match shapes[from].gone(tables, keys[from], 0) {
            Some(gone) => Some(gone),
            None => first_gone(shapes, tables, keys, from + 1),
        }
    }
}

impl<C: Component> DataModel<C> {
    /// Whether an invocation ran and would observe the same again.
    pub open spec fn memoized(self, owner: Invocation, deps: Seq<Dep>) -> bool {
        self.memo.contains_key(owner) && self.memo[owner] == deps
    }

    /// An invocation ran: what it derived before is gone, what it writes now is
    /// applied, and what it observed is remembered.
    pub open spec fn recorded(
        self,
        owner: Invocation,
        deps: Seq<Dep>,
        ops: Seq<OpModel<C>>,
    ) -> Self {
        DataModel {
            tables: self.tables.swept(SweepModel::Owned(owner)).applied_all(ops, owner),
            memo: self.memo.insert(owner, deps),
            order: without_invocation(self.order, owner).push(owner),
        }
    }

    /// Whether looking at one combination of rows can have `outcome`: it ran unless
    /// it is memoized.
    pub open spec fn invoked<S: SystemBody<C>>(
        self,
        system: SystemId,
        body: S,
        keys: Seq<Entity>,
        outcome: Result<(Self, bool), GoneComponent>,
    ) -> bool {
        let owner = Invocation { system, keys };
        match observed(body.shapes(), self.tables, keys, body.shapes().len()) {
            Err(gone) => outcome == Err::<(Self, bool), GoneComponent>(gone),
            Ok(deps) => if self.memoized(owner, deps) {
                outcome == Ok::<(Self, bool), GoneComponent>((self, false))
            } else {
                match first_gone(body.shapes(), self.tables, keys, 0) {
                    Some(gone) => outcome == Err::<(Self, bool), GoneComponent>(gone),
                    None => exists|ops: Seq<OpModel<C>>| #[trigger]
                        body.writes(self.tables, keys, ops) && outcome == Ok::<
                            (Self, bool),
                            GoneComponent,
                        >((self.recorded(owner, deps, ops), true)),
                }
            },
        }
    }

    /// Whether looking at the first `count` combinations of rows, in order, can
    /// have `outcome`.
    pub open spec fn invoked_each<S: SystemBody<C>>(
        self,
        system: SystemId,
        body: S,
        lists: Seq<Seq<u64>>,
        count: nat,
        outcome: Result<(Self, bool), GoneComponent>,
    ) -> bool
        decreases count,
    {
        if count == 0 {
            outcome == Ok::<(Self, bool), GoneComponent>((self, false))
        } else {
            exists|before: Result<(Self, bool), GoneComponent>|
                self.invoked_each(system, body, lists, (count - 1) as nat, before)
                    && #[trigger] invoked_then(
                    before,
                    system,
                    body,
                    keys_at(lists, (count - 1) as nat),
                    outcome,
                )
        }
    }

    /// An invocation was forgotten, and with it what it derived.
    pub open spec fn dropped(self, owner: Invocation) -> Self {
        DataModel {
            tables: self.tables.swept(SweepModel::Owned(owner)),
            memo: self.memo.remove(owner),
            order: without_invocation(self.order, owner),
        }
    }

    /// Several invocations were forgotten, in order.
    pub open spec fn dropped_each(self, owners: Seq<Invocation>) -> Self
        decreases owners.len(),
    {
        if owners.len() == 0 {
            self
        } else {
            self.dropped_each(owners.drop_last()).dropped(owners.last())
        }
    }

    /// Whether running a system for all its rows can have `outcome`; invocations
    /// whose rows are no more are then forgotten.
    pub open spec fn system_run<S: SystemBody<C>>(
        self,
        system: SystemId,
        body: S,
        outcome: Result<(Self, bool), GoneComponent>,
    ) -> bool {
        let lists = row_lists(body.shapes(), self.tables);
        exists|looked: Result<(Self, bool), GoneComponent>| #[trigger]
            self.invoked_each(system, body, lists, combinations(lists), looked) && outcome
                == match looked {
                Err(gone) => Err(gone),
                Ok((after, ran)) => Ok(
                    (after.dropped_each(unseen(after.order, system, lists)), ran),
                ),
            }
    }
}

/// Whether looking at one more combination of rows, after what `before` says, can
/// have `outcome`.
pub open spec fn invoked_then<C: Component, S: SystemBody<C>>(
    before: Result<(DataModel<C>, bool), GoneComponent>,
    system: SystemId,
    body: S,
    keys: Seq<Entity>,
    outcome: Result<(DataModel<C>, bool), GoneComponent>,
) -> bool {
    match before {
        Err(gone) => outcome == Err::<(DataModel<C>, bool), GoneComponent>(gone),
        Ok((data, ran)) => exists|step: Result<(DataModel<C>, bool), GoneComponent>|
            #[trigger]
            data.invoked(system, body, keys, step) && outcome == continued(step, ran),
    }
}

/// The outcome of a step behind others; `ran` says whether one of those ran
/// something.
pub open spec fn continued<C: Component>(
    step: Result<(DataModel<C>, bool), GoneComponent>,
    ran: bool,
) -> Result<(DataModel<C>, bool), GoneComponent> {
    match step {
        Err(gone) => Err(gone),
        Ok((after, runs)) => Ok((after, ran || runs)),
    }
}

/// Whether an invocation stands for rows of `lists`.
pub open spec fn seen(lists: Seq<Seq<u64>>, owner: Invocation) -> bool {
    &&& owner.keys.len() == lists.len()
    &&& forall|q: int| 0 <= q < lists.len() ==> (#[trigger] lists[q]).contains(owner.keys[q].id())
}

/// The invocations of a system that stand for no rows of `lists`.
pub open spec fn unseen(
    order: Seq<Invocation>,
    system: SystemId,
    lists: Seq<Seq<u64>>,
) -> Seq<Invocation>
    decreases order.len(),
{
    if order.len() == 0 {
        Seq::empty()
    } else {
        let before = unseen(order.drop_last(), system, lists);
        if order.last().system == system && !seen(lists, order.last()) {
            before.push(order.last())
        } else {
            before
        }
    }
}

/// What a database holds besides its systems: the tables, and what each
/// invocation observed.
pub struct Data<C> {
    pub tables: Tables<C>,
    pub memo: InvocationMap<Observed>,
}

impl<C: Component> View for Data<C> {
    type V = DataModel<C>;

    open spec fn view(&self) -> DataModel<C> {
        DataModel { tables: self.tables@, memo: self.memo@, order: self.memo.order() }
    }
}

fn same_deps(a: &Vec<Dep>, b: &Vec<Dep>) -> (same: bool)
    ensures
        same == (a@ == b@),
{
    if a.len() != b.len() {
        return false;
    }
    let mut i: usize = 0;
    while i < a.len()
        invariant
            i <= a@.len(),
            a@.len() == b@.len(),
            forall|j: int| 0 <= j < i ==> a@[j] == b@[j],
        decreases a@.len() - i,
    {
        if !a[i].same(&b[i]) {
            assert(a@[i as int] != b@[i as int]);
            return false;
        }
        i = i + 1;
    }
    assert(a@ =~= b@);
    true
}

/// What an invocation observes of its rows.
fn observe<C: Component>(
    queries: &Vec<RowShape>,
    tables: &Tables<C>,
    keys: &Vec<Entity>,
) -> (deps: Result<Vec<Dep>, GoneComponent>)
    requires
        keys@.len() == queries@.len(),
    ensures
        match deps {
            Ok(deps) => observed(shapes_view(queries@), tables@, keys@, queries@.len()) == Ok::<
                Seq<Dep>,
                GoneComponent,
            >(deps@),
            Err(gone) => observed(shapes_view(queries@), tables@, keys@, queries@.len()) == Err::<
                Seq<Dep>,
                GoneComponent,
            >(gone),
        },
{
    let ghost shapes = shapes_view(queries@);
    let mut deps: Vec<Dep> = Vec::new();
    let mut i: usize = 0;
    while i < queries.len()
        invariant
            i <= queries@.len(),
            keys@.len() == queries@.len(),
            shapes == shapes_view(queries@),
            observed(shapes, tables@, keys@, i as nat) == Ok::<Seq<Dep>, GoneComponent>(deps@),
        decreases queries@.len() - i,
    {
        assert(shapes[i as int] == queries@[i as int]@);
        match queries[i].deps(tables, keys[i]) {
            Ok(mut more) => {
                deps.append(&mut more);
            },
            Err(gone) => {
                proof {
                    lemma_unobserved_stays(shapes, tables@, keys@, (i + 1) as nat);
                }
                return Err(gone);
            },
        }
        i = i + 1;
    }
    Ok(deps)
}

proof fn lemma_unobserved_stays<C: Component>(
    shapes: Seq<ShapeModel>,
    tables: TablesModel<C>,
    keys: Seq<Entity>,
    count: nat,
)
    requires
        count <= shapes.len(),
        observed(shapes, tables, keys, count) is Err,
    ensures
        observed(shapes, tables, keys, shapes.len()) == observed(shapes, tables, keys, count),
    decreases shapes.len() - count,
{
    if count < shapes.len() {
        lemma_unobserved_stays(shapes, tables, keys, count + 1);
    }
}

fn find_gone<C: Component>(queries: &Vec<RowShape>, tables: &Tables<C>, keys: &Vec<Entity>) -> (gone:
    Option<GoneComponent>)
    requires
        keys@.len() == queries@.len(),
    ensures
        gone == first_gone(shapes_view(queries@), tables@, keys@, 0),
{
    let ghost shapes = shapes_view(queries@);
    let mut i: usize = 0;
    while i < queries.len()
        invariant
            i <= queries@.len(),
            keys@.len() == queries@.len(),
            shapes == shapes_view(queries@),
            first_gone(shapes, tables@, keys@, 0) == first_gone(shapes, tables@, keys@, i as int),
        decreases queries@.len() - i,
    {
        assert(shapes[i as int] == queries@[i as int]@);
        let gone = queries[i].first_gone(tables, keys[i]);
        if gone.is_some() {
            return gone;
        }
        i = i + 1;
    }
    None
}

fn list_rows<C: Component>(queries: &Vec<RowShape>, tables: &Tables<C>) -> (lists: Vec<Vec<Entity>>)
    requires
        forall|i: int| 0 <= i < queries@.len() ==> (#[trigger] queries@[i])@.wf(),
    ensures
        lists_view(lists@) == row_lists(shapes_view(queries@), tables@),
{
    let ghost shapes = shapes_view(queries@);
    let mut lists: Vec<Vec<Entity>> = Vec::new();
    let mut i: usize = 0;
    while i < queries.len()
        invariant
            i <= queries@.len(),
            shapes == shapes_view(queries@),
            forall|i: int| 0 <= i < queries@.len() ==> (#[trigger] queries@[i])@.wf(),
            lists@.len() == i,
            forall|j: int| 0 <= j < i ==> ids((#[trigger] lists@[j])@) == shapes[j].rows(tables@),
        decreases queries@.len() - i,
    {
        lists.push(queries[i].rows(tables));
        i = i + 1;
    }
    assert(lists_view(lists@) =~= row_lists(shapes, tables@));
    lists
}

/// Row lists by their ids.
pub open spec fn lists_view(lists: Seq<Vec<Entity>>) -> Seq<Seq<u64>> {
    lists.map_values(|list: Vec<Entity>| ids(list@))
}

fn pick(lists: &Vec<Vec<Entity>>, indices: &Vec<usize>) -> (keys: Vec<Entity>)
    requires
        in_range(indices@, lengths_of(lists_view(lists@))),
    ensures
        keys@ == picked(lists_view(lists@), indices@),
{
    let ghost view = lists_view(lists@);
    let mut keys: Vec<Entity> = Vec::new();
    let mut i: usize = 0;
    while i < lists.len()
        invariant
            i <= lists@.len(),
            view == lists_view(lists@),
            in_range(indices@, lengths_of(view)),
            keys@ =~= picked(view, indices@).take(i as int),
        decreases lists@.len() - i,
    {
        assert(indices@[i as int] < lengths_of(view)[i as int]);
        assert(view[i as int] == ids(lists@[i as int]@));
        keys.push(lists[i][indices[i]]);
        proof {
            let entity = lists@[i as int]@[indices@[i as int] as int];
            crate::entity::lemma_entity_is_its_id(Entity::of(entity.id()), entity);
        }
        i = i + 1;
    }
    assert(picked(view, indices@).take(lists@.len() as int) =~= picked(view, indices@));
    keys
}

fn is_seen(lists: &Vec<Vec<Entity>>, owner: &SystemInvocation) -> (yes: bool)
    ensures
        yes == seen(lists_view(lists@), owner@),
{
    let ghost view = lists_view(lists@);
    if owner.keys.len() != lists.len() {
        return false;
    }
    let mut i: usize = 0;
    while i < lists.len()
        invariant
            i <= lists@.len(),
            view == lists_view(lists@),
            owner.keys@.len() == lists@.len(),
            forall|q: int| 0 <= q < i ==> (#[trigger] view[q]).contains(owner@.keys[q].id()),
        decreases lists@.len() - i,
    {
        assert(view[i as int] == ids(lists@[i as int]@));
        match crate::invocation::position_of(&lists[i], owner.keys[i]) {
            Some(at) => {
                assert(view[i as int][at as int] == owner@.keys[i as int].id());
            },
            None => {
                proof {
                    if view[i as int].contains(owner@.keys[i as int].id()) {
                        let at = choose|at: int|
                            0 <= at < view[i as int].len() && view[i as int][at]
                                == owner@.keys[i as int].id();
                        let found = lists@[i as int]@[at];
                        crate::entity::lemma_entity_is_its_id(found, owner@.keys[i as int]);
                        assert(lists@[i as int]@.contains(owner@.keys[i as int]));
                    }
                }
                return false;
            },
        }
        i = i + 1;
    }
    true
}

impl<C: Component> Data<C> {
    /// The memo is well-formed and every value is filed under its own type.
    pub open spec fn wf(&self) -> bool {
        self.memo.wf() && self.tables@.consistent()
    }

    /// Nothing stored and nothing remembered.
    pub fn new() -> (data: Self)
        ensures
            data.wf(),
            data@ == (DataModel::<C> {
                tables: TablesModel::empty(),
                memo: Map::empty(),
                order: Seq::empty(),
            }),
    {
        Data { tables: Tables::new(), memo: InvocationMap::new() }
    }

    /// Records a run of an invocation: what it derived before goes, what it
    /// writes now is applied, and what it observed is remembered.
    pub fn run_with_commands(
        &mut self,
        owner: SystemInvocation,
        deps: Vec<Dep>,
        ops: &Vec<CommandOp<C>>,
    )
        requires
            old(self).wf(),
        ensures
            final(self).wf(),
            final(self)@ == old(self)@.recorded(owner@, deps@, ops_view(ops@)),
    {
        self.tables.remove_derived_owned(&owner);
        self.tables.apply_all(ops, &owner);
        self.memo.insert(owner, Observed { deps });
    }

    /// Looks at one combination of rows, and runs the system for it unless it is
    /// memoized.
    fn invoke<S: SystemBody<C>>(
        &mut self,
        system: SystemId,
        body: &S,
        queries: &Vec<RowShape>,
        keys: Vec<Entity>,
    ) -> (ran: Result<bool, GoneComponent>)
        requires
            old(self).wf(),
            shapes_view(queries@) == body.shapes(),
            keys@.len() == queries@.len(),
        ensures
            final(self).wf(),
            match ran {
                Ok(ran) => old(self)@.invoked(system, *body, keys@, Ok((final(self)@, ran))),
                Err(gone) => old(self)@.invoked(system, *body, keys@, Err(gone)),
            },
    {
        let deps = match observe(queries, &self.tables, &keys) {
            Ok(deps) => deps,
            Err(gone) => {
                return Err(gone);
            },
        };
        let owner = SystemInvocation::new(system, copy_entities(&keys));
        let current = match self.memo.get(&owner) {
            Some(observed_before) => same_deps(&observed_before.deps, &deps),
            None => false,
        };
        if current {
            return Ok(false);
        }
        if let Some(gone) = find_gone(queries, &self.tables, &keys) {
            return Err(gone);
        }
        let mut commands = Commands::new();
        body.run(&self.tables, &keys, &mut commands);
        let ghost filled = commands@;
        let ops = commands.into_ops();
        proof {
            assert(filled.skip(0) =~= filled);
            assert(body.writes(self.tables@, keys@, ops_view(ops@)));
        }
        self.run_with_commands(owner, deps, &ops);
        Ok(true)
    }

    /// Forgets an invocation and removes what it derived.
    pub fn drop_invocation(&mut self, owner: &SystemInvocation)
        requires
            old(self).wf(),
        ensures
            final(self).wf(),
            final(self)@ == old(self)@.dropped(owner@),
    {
        self.tables.remove_derived_owned(owner);
        self.memo.remove(owner);
    }

    /// Forgets several invocations and removes what they derived.
    pub fn drop_invocations(&mut self, owners: &Vec<SystemInvocation>)
        requires
            old(self).wf(),
        ensures
            final(self).wf(),
            final(self)@ == old(self)@.dropped_each(invocations_view(owners@)),
    {
        let ghost all = invocations_view(owners@);
        let mut i: usize = 0;
        while i < owners.len()
            invariant
                i <= owners@.len(),
                all == invocations_view(owners@),
                self.wf(),
                self@ == old(self)@.dropped_each(all.take(i as int)),
            decreases owners@.len() - i,
        {
            assert(all.take(i + 1).drop_last() =~= all.take(i as int));
            self.drop_invocation(&owners[i]);
            i = i + 1;
        }
        assert(all.take(all.len() as int) =~= all);
    }

    fn unseen_invocations(&self, system: SystemId, lists: &Vec<Vec<Entity>>) -> (owners: Vec<
        SystemInvocation,
    >)
        ensures
            invocations_view(owners@) == unseen(self@.order, system, lists_view(lists@)),
    {
        let ghost order = self@.order;
        let mut owners: Vec<SystemInvocation> = Vec::new();
        let count: usize = self.memo.len();
        let mut i: usize = 0;
        assert(invocations_view(owners@) =~= Seq::<Invocation>::empty());
        while i < count
            invariant
                count == order.len(),
                order == self.memo.order(),
                i <= count,
                invocations_view(owners@) == unseen(
                    order.take(i as int),
                    system,
                    lists_view(lists@),
                ),
            decreases count - i,
        {
            assert(order.take(i + 1).drop_last() =~= order.take(i as int));
            let owner = self.memo.key(i);
            if owner.system.0 == system.0 && !is_seen(lists, owner) {
                let ghost before = owners@;
                owners.push(owner.duplicate());
                assert(invocations_view(owners@) =~= invocations_view(before).push(owner@));
            }
            i = i + 1;
        }
        assert(order.take(order.len() as int) =~= order);
        owners
    }

    /// Forgets the invocations of a system whose rows are no more.
    pub fn remove_unseen_invocations(&mut self, system: SystemId, lists: &Vec<Vec<Entity>>)
        requires
            old(self).wf(),
        ensures
            final(self).wf(),
            final(self)@ == old(self)@.dropped_each(
                unseen(old(self)@.order, system, lists_view(lists@)),
            ),
    {
        let owners = self.unseen_invocations(system, lists);
        self.drop_invocations(&owners);
    }

    /// Runs a system for each combination of its rows that is not memoized;
    /// whether any ran. A row whose components an earlier invocation of the same
    /// run took is reported.
    pub fn run_system<S: SystemBody<C>>(&mut self, system: SystemId, body: &S) -> (ran: Result<
        bool,
        GoneComponent,
    >)
        requires
            old(self).wf(),
        ensures
            final(self).wf(),
            match ran {
                Ok(ran) => old(self)@.system_run(system, *body, Ok((final(self)@, ran))),
                Err(gone) => old(self)@.system_run(system, *body, Err(gone)),
            },
    {
        let ghost start = self@;
        let queries = body.queries();
        let lists = list_rows(&queries, &self.tables);
        let ghost view = lists_view(lists@);
        let mut lengths: Vec<usize> = Vec::new();
        let mut indices: Vec<usize> = Vec::new();
        let mut empty = false;
        let mut i: usize = 0;
        while i < lists.len()
            invariant
                i <= lists@.len(),
                view == lists_view(lists@),
                lengths@ =~= lengths_of(view).take(i as int),
                indices@.len() == i,
                forall|j: int| 0 <= j < i ==> indices@[j] == 0,
                empty <==> exists|j: int| 0 <= j < i && #[trigger] lengths_of(view)[j] == 0,
            decreases lists@.len() - i,
        {
            let length: usize = lists[i].len();
            assert(lengths_of(view)[i as int] == length);
            lengths.push(length);
            indices.push(0);
            if length == 0 {
                empty = true;
            }
            i = i + 1;
        }
        assert(lengths@ =~= lengths_of(view));
        let mut ran = false;
        if empty {
            proof {
                let j = choose|j: int| 0 <= j < lists@.len() && #[trigger] lengths_of(view)[j] == 0;
                lemma_no_combinations(lengths_of(view), j, lists@.len());
            }
        } else {
            let mut more = true;
            let ghost mut done: nat = 0;
            proof {
                assert(in_range(indices@, lengths@));
                lemma_first_combination(indices@, lengths@, lists@.len());
            }
            while more
                invariant
                    self.wf(),
                    start == old(self)@,
                    view == lists_view(lists@),
                    shapes_view(queries@) == body.shapes(),
                    view == row_lists(body.shapes(), start.tables),
                    lengths@ == lengths_of(view),
                    in_range(indices@, lengths@),
                    done <= combinations(view),
                    start.invoked_each(system, *body, view, done, Ok((self@, ran))),
                    more ==> done == number(indices@, lengths@, lengths@.len()),
                    !more ==> done == combinations(view),
                decreases combinations(view) - done,
            {
                let keys = pick(&lists, &indices);
                proof {
                    lemma_combination_of_number(indices@, lengths@);
                    lemma_number_below_total(indices@, lengths@, lengths@.len());
                    assert(keys@ == keys_at(view, done));
                    assert(queries@.len() == shapes_view(queries@).len());
                    assert(keys@.len() == queries@.len());
                }
                let ghost before = self@;
                let ghost earlier = ran;
                let looked = self.invoke(system, body, &queries, keys);
                proof {
                    let step: Result<(DataModel<C>, bool), GoneComponent> = match looked {
                        Ok(runs) => Ok((self@, runs)),
                        Err(gone) => Err(gone),
                    };
                    assert(before.invoked(system, *body, keys_at(view, done), step));
                    lemma_invoked_then(
                        before,
                        earlier,
                        system,
                        *body,
                        keys_at(view, done),
                        step,
                    );
                    assert(((done + 1) - 1) as nat == done);
                    assert(start.invoked_each(
                        system,
                        *body,
                        view,
                        done + 1,
                        continued(step, earlier),
                    ));
                }
                match looked {
                    Ok(runs) => {
                        ran = ran || runs;
                    },
                    Err(gone) => {
                        proof {
                            lemma_gone_ends(
                                start,
                                system,
                                *body,
                                view,
                                done + 1,
                                combinations(view),
                                gone,
                            );
                        }
                        return Err(gone);
                    },
                }
                more = advance_indices(&mut indices, &lengths);
                proof {
                    done = done + 1;
                }
            }
        }
        proof {
            lemma_system_ran(start, system, *body, self@, ran);
        }
        self.remove_unseen_invocations(system, &lists);
        Ok(ran)
    }
}

proof fn lemma_no_combinations(lengths: Seq<usize>, at: int, count: nat)
    requires
        0 <= at < count <= lengths.len(),
        lengths[at] == 0,
    ensures
        total(lengths, count) == 0,
    decreases count,
{
    let fewer = (count - 1) as nat;
    if at < count - 1 {
        lemma_no_combinations(lengths, at, fewer);
    }
    let before = total(lengths, fewer);
    let length = lengths[count - 1] as nat;
    assert(before * length == 0) by (nonlinear_arith)
        requires
            before == 0 || length == 0,
    ;
}

proof fn lemma_first_combination(indices: Seq<usize>, lengths: Seq<usize>, count: nat)
    requires
        count <= lengths.len(),
        indices.len() == lengths.len(),
        forall|i: int| 0 <= i < indices.len() ==> indices[i] == 0,
    ensures
        number(indices, lengths, count) == 0,
    decreases count,
{
    if count > 0 {
        lemma_first_combination(indices, lengths, (count - 1) as nat);
        let length = lengths[count - 1] as nat;
        assert(0 * length == 0) by (nonlinear_arith);
    }
}

proof fn lemma_invoked_then<C: Component, S: SystemBody<C>>(
    data: DataModel<C>,
    ran: bool,
    system: SystemId,
    body: S,
    keys: Seq<Entity>,
    step: Result<(DataModel<C>, bool), GoneComponent>,
)
    requires
        data.invoked(system, body, keys, step),
    ensures
        invoked_then(Ok((data, ran)), system, body, keys, continued(step, ran)),
{
    let before: Result<(DataModel<C>, bool), GoneComponent> = Ok((data, ran));
    assert(before->Ok_0.0 == data);
    assert(invoked_then(before, system, body, keys, continued(step, ran)));
}

proof fn lemma_system_ran<C: Component, S: SystemBody<C>>(
    data: DataModel<C>,
    system: SystemId,
    body: S,
    after: DataModel<C>,
    ran: bool,
)
    requires
        ({
            let lists = row_lists(body.shapes(), data.tables);
            data.invoked_each(system, body, lists, combinations(lists), Ok((after, ran)))
        }),
    ensures
        ({
            let lists = row_lists(body.shapes(), data.tables);
            data.system_run(
                system,
                body,
                Ok((after.dropped_each(unseen(after.order, system, lists)), ran)),
            )
        }),
{
    let lists = row_lists(body.shapes(), data.tables);
    let looked: Result<(DataModel<C>, bool), GoneComponent> = Ok((after, ran));
    assert(looked->Ok_0.0 == after);
    assert(data.invoked_each(system, body, lists, combinations(lists), looked));
}

proof fn lemma_gone_ends<C: Component, S: SystemBody<C>>(
    data: DataModel<C>,
    system: SystemId,
    body: S,
    lists: Seq<Seq<u64>>,
    done: nat,
    count: nat,
    gone: GoneComponent,
)
    requires
        done <= count,
        data.invoked_each(system, body, lists, done, Err(gone)),
    ensures
        data.invoked_each(system, body, lists, count, Err(gone)),
    decreases count - done,
{
    if done < count {
        let failed: Result<(DataModel<C>, bool), GoneComponent> = Err(gone);
        assert(invoked_then(
            failed,
            system,
            body,
            keys_at(lists, ((done + 1) - 1) as nat),
            failed,
        ));
        assert(data.invoked_each(system, body, lists, done + 1, failed));
        lemma_gone_ends(data, system, body, lists, done + 1, count, gone);
    }
}

} // verus!
