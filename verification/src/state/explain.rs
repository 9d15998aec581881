//! Explaining why a system did or did not run, and what it cost.

use super::{State, StateModel};
use crate::component::RelationshipTarget;
use crate::declare::ShapeDesc;
use crate::invocation::{Invocation, SystemId};
use crate::keys::set_elements;
use crate::memo::{memoized_count, MemoModel, MemoTable};
use crate::model::{sorted_keys, WorldModel};
use crate::param::{system_states, JoinError};
use crate::registry::{BoxedSystem, SystemModel};
use crate::system::{Phase, SystemStats};
use crate::world::World;
use std::collections::BTreeSet;
use vstd::prelude::*;
use vstd::string::StrSliceExecFns;

verus! {

/// Why a system did or did not run.
#[derive(Debug, Clone, Copy)]
pub struct ExplainReport {
    /// Whether any registered system matched the queried name.
    pub registered: bool,
    /// The phase the system runs during, if registered.
    pub phase: Option<Phase>,
    /// Invocations that the system's queries currently match, after joins and
    /// filters. Zero explains that there is nothing to run.
    pub matched_rows: usize,
    /// Matched invocations that are skipped because their recorded inputs are
    /// unchanged.
    pub memoized_rows: usize,
    /// Viewed stores that changed since the system's last run. Nonzero while
    /// everything is memoized means that views moved and nothing reran, which is
    /// what views are for.
    pub stale_views: usize,
}

/// One system's profile: its name and cumulative counters.
#[derive(Debug, Clone, Copy)]
pub struct ProfileEntry {
    pub name: &'static str,
    pub runs: u64,
    pub plan_nanos: u64,
    pub run_nanos: u64,
}

/// Whether `name` ends with `suffix`.
pub open spec fn ends_with(name: Seq<char>, suffix: Seq<char>) -> bool {
    suffix.len() <= name.len() && name.skip(name.len() - suffix.len()) == suffix
}

fn has_suffix(name: &str, suffix: &str) -> (found: bool)
    ensures
        found == ends_with(name@, suffix@),
{
    let long = name.unicode_len();
    let short = suffix.unicode_len();
    if short > long {
        return false;
    }
    let start = long - short;
    let mut i: usize = 0;
    while i < short
        invariant
            long == name@.len(),
            short == suffix@.len(),
            start == long - short,
            short <= long,
            i <= short,
            forall|j: int| 0 <= j < i ==> name@[start + j] == suffix@[j],
        decreases short - i,
    {
        if name.get_char(start + i) != suffix.get_char(i) {
            assert(name@.skip(start as int)[i as int] != suffix@[i as int]);
            return false;
        }
        i = i + 1;
    }
    assert(name@.skip(start as int) =~= suffix@);
    true
}

/// The first of the systems from `from` on whose name ends with `suffix`.
pub open spec fn named(systems: Seq<SystemModel>, suffix: Seq<char>, from: int) -> Option<int>
    decreases systems.len() - from,
{
    if from < 0 || from >= systems.len() {
        None
    } else if ends_with(systems[from].name, suffix) {
        Some(from)
    } else {
        named(systems, suffix, from + 1)
    }
}

/// Whether an invocation of `system` was last planned before `watermark`.
pub open spec fn planned_before(
    memo: Map<Invocation, MemoModel>,
    system: SystemId,
    watermark: u64,
) -> bool {
    exists|owner: Invocation| #[trigger]
        memo.contains_key(owner) && owner.system == system && watermark
            > memo[owner].planned_revision
}

/// The viewed stores that moved since an invocation of the system was planned.
pub open spec fn stale_kinds<C: RelationshipTarget>(
    world: WorldModel<C>,
    memo: Map<Invocation, MemoModel>,
    system: SystemModel,
    position: SystemId,
) -> Set<u64> {
    Set::new(
        |kind: u64|
            (exists|i: int|
                0 <= i < system.views.len() && (#[trigger] system.views[i]).contains(kind))
                && planned_before(memo, position, world.column(kind).watermark),
    )
}

fn any_planned_before(memo: &MemoTable, system: SystemId, watermark: u64) -> (found: bool)
    requires
        memo.wf(),
    ensures
        found == planned_before(memo@, system, watermark),
{
    let ghost order = memo.order();
    proof {
        memo.lemma_order();
    }
    let mut i: usize = 0;
    while i < memo.len()
        invariant
            memo.wf(),
            order == memo.order(),
            i <= order.len(),
            forall|k: Invocation| order.contains(k) <==> #[trigger] memo@.contains_key(k),
            forall|j: int|
                0 <= j < i ==> !((#[trigger] order[j]).system == system && watermark
                    > memo@[order[j]].planned_revision),
        decreases order.len() - i,
    {
        let owner = memo.key(i);
        assert(order.contains(order[i as int]));
        assert(memo@.contains_key(order[i as int]));
        if owner.system.0 == system.0 {
            if let Some(entry) = memo.get(owner) {
                if watermark > entry.planned_revision() {
                    assert(planned_before(memo@, system, watermark));
                    return true;
                }
            }
        }
        i = i + 1;
    }
    proof {
        if planned_before(memo@, system, watermark) {
            let owner = choose|owner: Invocation| #[trigger]
                memo@.contains_key(owner) && owner.system == system && watermark
                    > memo@[owner].planned_revision;
            assert(order.contains(owner));
            let j = choose|j: int| 0 <= j < order.len() && order[j] == owner;
            assert(order[j].system == system);
        }
    }
    false
}

fn count_stale<C: RelationshipTarget>(
    world: &World<C>,
    memo: &MemoTable,
    system: &BoxedSystem,
    position: SystemId,
) -> (count: usize)
    requires
        memo.wf(),
    ensures
        count == sorted_keys(stale_kinds(world@, memo@, system@, position)).len(),
{
    let mut stale: BTreeSet<u64> = BTreeSet::new();
    let ghost views = system@.views;
    let mut i: usize = 0;
    while i < system.view_sets.len()
        invariant
            memo.wf(),
            views == system@.views,
            views.len() == system.view_sets@.len(),
            i <= system.view_sets@.len(),
            forall|kind: u64| #[trigger]
                stale@.contains(kind) <==> (exists|n: int|
                    0 <= n < i && (#[trigger] views[n]).contains(kind)) && planned_before(
                    memo@,
                    position,
                    world@.column(kind).watermark,
                ),
        decreases system.view_sets@.len() - i,
    {
        let ghost before = stale@;
        let ghost view = views[i as int];
        assert(view == system.view_sets@[i as int]@);
        let mut j: usize = 0;
        while j < system.view_sets[i].len()
            invariant
                memo.wf(),
                i < system.view_sets@.len(),
                view == system.view_sets@[i as int]@,
                j <= view.len(),
                forall|kind: u64| #[trigger]
                    stale@.contains(kind) <==> before.contains(kind) || (view.take(
                        j as int,
                    ).contains(kind) && planned_before(
                        memo@,
                        position,
                        world@.column(kind).watermark,
                    )),
            decreases view.len() - j,
        {
            let kind = system.view_sets[i][j];
            let ghost now = stale@;
            let moved = any_planned_before(memo, position, world.store_watermark(kind));
            if moved {
                stale.insert(kind);
            }
            proof {
                let less = view.take(j as int);
                let more = view.take(j + 1);
                assert(more =~= less.push(kind));
                assert forall|k: u64| #[trigger]
                    stale@.contains(k) <==> before.contains(k) || (view.take(j + 1).contains(k)
                        && planned_before(memo@, position, world@.column(k).watermark)) by {
                    assert(now.contains(k) <==> before.contains(k) || (less.contains(k)
                        && planned_before(memo@, position, world@.column(k).watermark)));
                    if less.contains(k) {
                        let n = choose|n: int| 0 <= n < less.len() && less[n] == k;
                        assert(more[n] == k);
                    }
                    if more.contains(k) {
                        let n = choose|n: int| 0 <= n < more.len() && more[n] == k;
                        if n < less.len() {
                            assert(less[n] == k);
                        }
                    }
                    assert(more[j as int] == kind);
                }
            }
            j = j + 1;
        }
        proof {
            assert(view.take(view.len() as int) =~= view);
            assert forall|kind: u64| #[trigger]
                stale@.contains(kind) <==> (exists|n: int|
                    0 <= n < i + 1 && (#[trigger] views[n]).contains(kind)) && planned_before(
                    memo@,
                    position,
                    world@.column(kind).watermark,
                ) by {
                if before.contains(kind) {
                    let n = choose|n: int| 0 <= n < i && (#[trigger] views[n]).contains(kind);
                    assert(0 <= n < i + 1 && views[n].contains(kind));
                }
                if view.contains(kind) {
                    assert(views[i as int].contains(kind));
                }
            }
        }
        i = i + 1;
    }
    proof {
        assert(stale@ =~= stale_kinds(world@, memo@, system@, position));
    }
    let listed = set_elements(&stale);
    listed.len()
}

/// The report of a registered system.
pub open spec fn report_of<C: RelationshipTarget>(
    state: StateModel<C>,
    at: int,
    report: ExplainReport,
) -> bool {
    let system = state.systems[at];
    let world = state.world.snapshot();
    &&& system_states(world, system.params) matches Ok(states) && report.matched_rows
        == states.len() && report.memoized_rows == memoized_count(
        system.id,
        world,
        state.memo,
        system.params,
        states,
    )
    &&& report.registered
    &&& report.phase == Some(system.phase)
    &&& report.stale_views == sorted_keys(
        stale_kinds(world, state.memo, system, SystemId(at as usize)),
    ).len()
}

/// Whether the rows of the first `count` systems can be joined.
pub open spec fn explains_up_to<C: RelationshipTarget>(state: StateModel<C>, count: int) -> bool {
    forall|i: int|
        0 <= i < count ==> system_states(
            state.world.snapshot(),
            (#[trigger] state.systems[i]).params,
        ) is Ok
}

impl<C: RelationshipTarget> State<C> {
    fn find_named(&self, suffix: &str) -> (at: Option<usize>)
        ensures
            match at {
                Some(at) => named(self@.systems, suffix@, 0) == Some(at as int) && at
                    < self.systems@.len(),
                None => named(self@.systems, suffix@, 0) is None,
            },
    {
        let ghost models = self@.systems;
        let mut i: usize = 0;
        while i < self.systems.len()
            invariant
                i <= self.systems@.len(),
                models == self@.systems,
                models.len() == self.systems@.len(),
                named(models, suffix@, 0) == named(models, suffix@, i as int),
            decreases self.systems@.len() - i,
        {
            assert(models[i as int] == self.systems@[i as int]@);
            if has_suffix(self.systems[i].name, suffix) {
                return Some(i);
            }
            i = i + 1;
        }
        None
    }

    /// Explains why the system whose name ends with `system` did or did not run:
    /// whether it is registered, in which phase it runs, how many invocations
    /// match, how many of those are up to date, and how many stores it views moved
    /// since.
    pub fn explain(&mut self, system: &str) -> (report: Result<ExplainReport, JoinError>)
        requires
            old(self).wf(),
        ensures
            final(self).wf(),
            final(self)@ == old(self)@,
            match named(old(self)@.systems, system@, 0) {
                None => report == Ok::<ExplainReport, JoinError>(
                    ExplainReport {
                        registered: false,
                        phase: None,
                        matched_rows: 0,
                        memoized_rows: 0,
                        stale_views: 0,
                    },
                ),
                Some(at) => match report {
                    Ok(report) => report_of(old(self)@, at, report),
                    Err(error) => system_states(
                        old(self)@.world.snapshot(),
                        old(self)@.systems[at].params,
                    ) == Err::<Seq<Seq<crate::param::RowState>>, JoinError>(error),
                },
            },
    {
        let at = match self.find_named(system) {
            Some(at) => at,
            None => {
                return Ok(
                    ExplainReport {
                        registered: false,
                        phase: None,
                        matched_rows: 0,
                        memoized_rows: 0,
                        stale_views: 0,
                    },
                );
            },
        };
        self.explain_at(at)
    }

    /// Explains the system at position `at`.
    fn explain_at(&mut self, at: usize) -> (report: Result<ExplainReport, JoinError>)
        requires
            old(self).wf(),
            at < old(self)@.systems.len(),
        ensures
            final(self).wf(),
            final(self)@ == old(self)@,
            match report {
                Ok(report) => report_of(old(self)@, at as int, report),
                Err(error) => system_states(
                    old(self)@.world.snapshot(),
                    old(self)@.systems[at as int].params,
                ) == Err::<Seq<Seq<crate::param::RowState>>, JoinError>(error),
            },
    {
        assert(self@.systems.len() == self.systems@.len());
        let snapshot = self.snapshot();
        let target = &self.systems[at];
        assert(self@.systems[at as int] == target@);
        match target.row_counts(&snapshot, &self.memo) {
            Ok((matched_rows, memoized_rows)) => {
                let stale_views = count_stale(&snapshot, &self.memo, target, SystemId(at));
                Ok(
                    ExplainReport {
                        registered: true,
                        phase: Some(target.phase),
                        matched_rows,
                        memoized_rows,
                        stale_views,
                    },
                )
            },
            Err(error) => Err(error),
        }
    }

    /// The declared shapes, if the bowl has a schema.
    pub fn schema(&self) -> (schema: Option<&Vec<ShapeDesc>>)
        ensures
            match schema {
                Some(shapes) => self@.schema == Some(shapes@),
                None => self@.schema is None,
            },
    {
        match &self.schema {
            Some(shapes) => Some(shapes),
            None => None,
        }
    }

    /// The names of the systems, in registration order.
    pub fn system_names(&self) -> (names: Vec<&'static str>)
        ensures
            names@.len() == self@.systems.len(),
            forall|i: int|
                0 <= i < names@.len() ==> (#[trigger] names@[i])@ == self@.systems[i].name,
    {
        let mut names: Vec<&'static str> = Vec::new();
        let mut i: usize = 0;
        while i < self.systems.len()
            invariant
                i <= self.systems@.len(),
                names@.len() == i,
                forall|j: int|
                    0 <= j < i ==> (#[trigger] names@[j])@ == self@.systems[j].name,
            decreases self.systems@.len() - i,
        {
            names.push(self.systems[i].name);
            assert(self@.systems[i as int].name == self.systems@[i as int].name@);
            i = i + 1;
        }
        names
    }

    /// Explains every system, in registration order: one report for each, with its
    /// name. The first system whose rows cannot be joined ends it.
    pub fn explain_all(&mut self) -> (reports: Result<Vec<(&'static str, ExplainReport)>, JoinError>)
        requires
            old(self).wf(),
        ensures
            final(self).wf(),
            final(self)@ == old(self)@,
            match reports {
                Ok(reports) => {
                    &&& reports@.len() == old(self)@.systems.len()
                    &&& forall|i: int|
                        0 <= i < reports@.len() ==> (#[trigger] reports@[i]).0@
                            == old(self)@.systems[i].name && report_of(
                            old(self)@,
                            i,
                            reports@[i].1,
                        )
                },
                Err(error) => exists|i: int|
                    0 <= i < old(self)@.systems.len() && explains_up_to(old(self)@, i)
                        && system_states(
                        old(self)@.world.snapshot(),
                        (#[trigger] old(self)@.systems[i]).params,
                    ) == Err::<Seq<Seq<crate::param::RowState>>, JoinError>(error),
            },
    {
        let ghost before = self@;
        let names = self.system_names();
        let mut reports: Vec<(&'static str, ExplainReport)> = Vec::new();
        let mut i: usize = 0;
        while i < names.len()
            invariant
                self.wf(),
                self@ == before,
                before == old(self)@,
                i <= names@.len(),
                names@.len() == before.systems.len(),
                forall|j: int|
                    0 <= j < names@.len() ==> (#[trigger] names@[j])@ == before.systems[j].name,
                reports@.len() == i,
                explains_up_to(before, i as int),
                forall|j: int|
                    0 <= j < i ==> (#[trigger] reports@[j]).0@ == before.systems[j].name
                        && report_of(before, j, reports@[j].1),
            decreases names@.len() - i,
        {
            match self.explain_at(i) {
                Ok(report) => {
                    reports.push((names[i], report));
                },
                Err(error) => {
                    assert(old(self)@.systems[i as int] == before.systems[i as int]);
                    return Err(error);
                },
            }
            i = i + 1;
        }
        Ok(reports)
    }

    /// Charges planning time to a system.
    pub fn record_plan(&mut self, system: SystemId, nanos: u64)
        requires
            old(self).wf(),
        ensures
            final(self).wf(),
            final(self)@ == (StateModel {
                counters: planning_charged(old(self)@.counters, system, nanos),
                ..old(self)@
            }),
    {
        if system.0 < self.stats.len() {
            let mut stats = self.stats[system.0];
            stats.record_plan(nanos);
            self.stats.set(system.0, stats);
        }
    }

    /// Charges one poll of a run to a system, and counts the run when the poll
    /// finished it.
    pub fn record_poll(&mut self, system: SystemId, nanos: u64, ready: bool)
        requires
            old(self).wf(),
        ensures
            final(self).wf(),
            final(self)@ == (StateModel {
                counters: poll_charged(old(self)@.counters, system, nanos, ready),
                ..old(self)@
            }),
    {
        if system.0 < self.stats.len() {
            let mut stats = self.stats[system.0];
            stats.record_poll(nanos, ready);
            self.stats.set(system.0, stats);
        }
    }

    /// Cumulative profile of every system, in registration order.
    pub fn profile_all(&self) -> (profile: Vec<ProfileEntry>)
        requires
            self.wf(),
        ensures
            profile@.len() == self@.systems.len(),
            self@.counters.len() == self@.systems.len(),
            forall|i: int|
                0 <= i < profile@.len() ==> (#[trigger] profile@[i]).name@
                    == self@.systems[i].name && profile@[i].shows(self@.counters[i]),
    {
        let mut profile: Vec<ProfileEntry> = Vec::new();
        let mut i: usize = 0;
        while i < self.systems.len()
            invariant
                self.wf(),
                i <= self.systems@.len(),
                profile@.len() == i,
                forall|j: int|
                    0 <= j < i ==> (#[trigger] profile@[j]).name@ == self@.systems[j].name
                        && profile@[j].shows(self@.counters[j]),
            decreases self.systems@.len() - i,
        {
            let system = &self.systems[i];
            let stats = self.stats[i];
            assert(self@.systems[i as int] == system@);
            profile.push(
                ProfileEntry {
                    name: system.name,
                    runs: stats.runs,
                    plan_nanos: stats.plan_nanos,
                    run_nanos: stats.run_nanos,
                },
            );
            i = i + 1;
        }
        profile
    }
}

/// Counters once planning time was charged to a system.
pub open spec fn planning_charged(
    counters: Seq<SystemStats>,
    system: SystemId,
    nanos: u64,
) -> Seq<SystemStats> {
    if system.0 < counters.len() {
        let stats = counters[system.0 as int];
        counters.update(
            system.0 as int,
            SystemStats { plan_nanos: stats.plan_nanos.wrapping_add(nanos), ..stats },
        )
    } else {
        counters
    }
}

/// Counters once a poll of a run was charged to a system.
pub open spec fn poll_charged(
    counters: Seq<SystemStats>,
    system: SystemId,
    nanos: u64,
    ready: bool,
) -> Seq<SystemStats> {
    if system.0 < counters.len() {
        let stats = counters[system.0 as int];
        counters.update(
            system.0 as int,
            SystemStats {
                run_nanos: stats.run_nanos.wrapping_add(nanos),
                runs: if ready {
                    stats.runs.wrapping_add(1)
                } else {
                    stats.runs
                },
                ..stats
            },
        )
    } else {
        counters
    }
}

impl ProfileEntry {
    /// Whether the profile shows these counters.
    pub open spec fn shows(self, stats: SystemStats) -> bool {
        &&& self.runs == stats.runs
        &&& self.plan_nanos == stats.plan_nanos
        &&& self.run_nanos == stats.run_nanos
    }
}

} // verus!
