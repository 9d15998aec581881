//! Running one generation: its phases, the invocations in flight, and the limits
//! on how much may happen.

use crate::access::{access_lists_conflict, copy_access, lists_clash, Access, AccessKind};
use crate::invocation::{Invocation, SystemInvocation};
use crate::memo::{planned_view, PlannedInvocation, PlannedModel};
use crate::registry::{BoxedSystem, SystemModel};
use crate::system::Phase;
use crate::text::{decimal, decimal_text};
use vstd::prelude::*;
use vstd::string::StringExecFns;

verus! {

/// How many commits one evaluation attempt may accept by default.
pub const DEFAULT_COMMIT_LIMIT: u64 = 10_000;

/// How many times one generation may be preempted before further preemptive
/// writes wait for its natural end.
pub const PREEMPTION_BUDGET: u32 = 4;

/// Guardrail for one external evaluation attempt. It does not define settlement;
/// it bounds how many commits one caller may drive while trying to reach it.
#[derive(Debug, Clone, Copy, PartialEq, Eq, Structural)]
pub enum CommitLimit {
    /// Drive evaluation until it settles.
    Unlimited,
    /// Refuse more than this many commits.
    Max(u64),
}

impl CommitLimit {
    /// Whether `commits` more can be accepted after `accepted`.
    pub open spec fn allows(self, accepted: nat, commits: nat) -> bool {
        commits == 0 || accepted + commits <= u64::MAX && match self {
            CommitLimit::Max(limit) => accepted + commits <= limit,
            CommitLimit::Unlimited => true,
        }
    }

    /// Whether `commits` more are refused after `accepted`, with `error`: the
    /// counter would overflow, or the limit is exceeded.
    pub open spec fn refuses(self, accepted: nat, commits: nat, error: BudgetError) -> bool {
        &&& !self.allows(accepted, commits)
        &&& match error {
            BudgetError::Overflow => accepted + commits > u64::MAX,
            BudgetError::Exceeded { accepted: total, limit } => {
                &&& self == CommitLimit::Max(limit)
                &&& total == accepted + commits
                &&& total > limit
            },
        }
    }

    /// Whether `error` is what some count of commits gives under this limit.
    pub open spec fn exhausted(self, error: BudgetError) -> bool {
        exists|accepted: nat, commits: nat| #[trigger] self.refuses(accepted, commits, error)
    }
}

impl Default for CommitLimit {
    fn default() -> (limit: Self)
        ensures
            limit == CommitLimit::Max(DEFAULT_COMMIT_LIMIT),
    {
        CommitLimit::Max(DEFAULT_COMMIT_LIMIT)
    }
}

/// Why a commit budget is used up.
#[derive(Debug, Clone, Copy, PartialEq, Eq, Structural)]
pub enum BudgetError {
    /// The counter overflowed.
    Overflow,
    /// More commits were accepted than the limit allows.
    Exceeded { accepted: u64, limit: u64 },
}

impl BudgetError {
    /// The error in words.
    pub open spec fn wording(self) -> Seq<char> {
        match self {
            BudgetError::Overflow => "commit budget counter overflowed"@,
            BudgetError::Exceeded { accepted, limit } => "bowl commit limit exceeded: accepted "@
                + decimal(accepted as nat)
                + " non-cleanup commits while trying to settle; current limit is "@ + decimal(
                limit as nat,
            ),
        }
    }

    /// The error in words.
    pub fn message(&self) -> (text: String)
        ensures
            text@ == self.wording(),
    {
        match self {
            BudgetError::Overflow => String::from_str("commit budget counter overflowed"),
            BudgetError::Exceeded { accepted, limit } => {
                let mut text = String::from_str("bowl commit limit exceeded: accepted ");
                let count = decimal_text(*accepted);
                text.append(count.as_str());
                text.append(" non-cleanup commits while trying to settle; current limit is ");
                let bound = decimal_text(*limit);
                text.append(bound.as_str());
                text
            },
        }
    }
}

/// The commits accepted by one evaluation attempt.
#[derive(Debug)]
pub struct CommitBudget {
    limit: CommitLimit,
    commits: u64,
}

impl CommitBudget {
    /// The limit.
    pub closed spec fn bound(self) -> CommitLimit {
        self.limit
    }

    /// The commits accepted so far.
    pub closed spec fn accepted(self) -> u64 {
        self.commits
    }

    /// A budget with nothing spent.
    pub fn new(limit: CommitLimit) -> (budget: Self)
        ensures
            budget.bound() == limit,
            budget.accepted() == 0,
    {
        CommitBudget { limit, commits: 0 }
    }

    /// Spends `commits`. Refused when the limit is exceeded.
    pub fn record(&mut self, commits: u64) -> (outcome: Result<(), BudgetError>)
        ensures
            final(self).bound() == old(self).bound(),
            match outcome {
                Ok(_) => {
                    &&& old(self).bound().allows(old(self).accepted() as nat, commits as nat)
                    &&& final(self).accepted() == old(self).accepted() + commits
                },
                Err(error) => {
                    &&& old(self).bound().refuses(
                        old(self).accepted() as nat,
                        commits as nat,
                        error,
                    )
                    &&& final(self).accepted() == if error is Overflow {
                        old(self).accepted() as int
                    } else {
                        old(self).accepted() + commits
                    }
                },
            },
    {
        if commits == 0 {
            return Ok(());
        }
        self.commits = match self.commits.checked_add(commits) {
            Some(total) => total,
            None => {
                return Err(BudgetError::Overflow);
            },
        };
        match self.limit {
            CommitLimit::Max(limit) => if self.commits > limit {
                Err(BudgetError::Exceeded { accepted: self.commits, limit })
            } else {
                Ok(())
            },
            CommitLimit::Unlimited => Ok(()),
        }
    }
}

/// The phases of a running generation.
#[derive(Debug)]
pub struct PhasePlan {
    phases: Vec<Phase>,
    index: usize,
    preemptions: u32,
    changed: bool,
}

/// What a [`PhasePlan`] holds.
#[verifier::ext_equal]
pub struct PlanModel {
    pub phases: Seq<Phase>,
    pub index: usize,
    pub preemptions: u32,
    pub changed: bool,
}

impl View for PhasePlan {
    type V = PlanModel;

    closed spec fn view(&self) -> PlanModel {
        PlanModel {
            phases: self.phases@,
            index: self.index,
            preemptions: self.preemptions,
            changed: self.changed,
        }
    }
}

impl PlanModel {
    /// The phases are those of a generation, and the position is among them or
    /// just past the end.
    pub open spec fn sound(self) -> bool {
        &&& self.phases == Phase::order(true) || self.phases == Phase::order(false)
        &&& self.index <= self.phases.len()
    }

    /// Whether preemption boundaries are still honored.
    pub open spec fn may_preempt(self) -> bool {
        self.preemptions < PREEMPTION_BUDGET
    }

    /// The plan after its current phase ran to quiescence.
    pub open spec fn advanced(self, changed: bool) -> PlanModel {
        PlanModel {
            index: (self.index + 1) as usize,
            changed: self.changed || changed,
            ..self
        }
    }

    /// The plan after a preemption: it starts over, through the startup phase.
    pub open spec fn restarted(self, changed: bool) -> PlanModel {
        PlanModel {
            phases: Phase::order(true),
            index: 0,
            preemptions: (self.preemptions + 1) as u32,
            changed: self.changed || changed,
        }
    }
}

impl PhasePlan {
    /// The plan is one of a generation.
    pub closed spec fn wf(&self) -> bool {
        self@.sound()
    }

    /// The plan of a generation.
    pub fn new(startup: bool) -> (plan: Self)
        ensures
            plan.wf(),
            plan@ == (PlanModel {
                phases: Phase::order(startup),
                index: 0,
                preemptions: 0,
                changed: false,
            }),
    {
        PhasePlan { phases: Phase::ordered(startup), index: 0, preemptions: 0, changed: false }
    }

    /// The phase to run, or `None` once the generation is complete.
    pub fn current(&self) -> (phase: Option<Phase>)
        requires
            self.wf(),
        ensures
            phase == if self@.index < self@.phases.len() {
                Some(self@.phases[self@.index as int])
            } else {
                None
            },
    {
        if self.index < self.phases.len() {
            Some(self.phases[self.index])
        } else {
            None
        }
    }

    /// Whether preemption boundaries are still honored.
    pub fn allow_preempt(&self) -> (allowed: bool)
        ensures
            allowed == self@.may_preempt(),
    {
        self.preemptions < PREEMPTION_BUDGET
    }

    /// Whether any phase changed the world.
    pub fn changed(&self) -> (changed: bool)
        ensures
            changed == self@.changed,
    {
        self.changed
    }

    /// Records that the current phase ran to quiescence.
    pub fn phase_completed(&mut self, changed: bool)
        requires
            old(self).wf(),
            old(self)@.index < old(self)@.phases.len(),
        ensures
            final(self).wf(),
            final(self)@ == old(self)@.advanced(changed),
    {
        self.changed = self.changed || changed;
        self.index = self.index + 1;
    }

    /// Records that the current phase was preempted: the generation restarts
    /// through the startup phase.
    pub fn phase_preempted(&mut self, changed: bool)
        requires
            old(self).wf(),
            old(self)@.may_preempt(),
        ensures
            final(self).wf(),
            final(self)@ == old(self)@.restarted(changed),
    {
        self.changed = self.changed || changed;
        self.preemptions = self.preemptions + 1;
        self.phases = Phase::ordered(true);
        self.index = 0;
    }
}

/// How many phases a generation can still run, at most: a preemption costs one of
/// the budget, and at most all phases run again.
pub open spec fn phases_left(plan: PlanModel) -> int {
    4 * (PREEMPTION_BUDGET - plan.preemptions) + (plan.phases.len() - plan.index)
}

/// Forward progress under write bursts: every phase that completes, and every
/// preemption that is honored, brings the generation nearer to its end.
pub proof fn lemma_generation_progresses(plan: PlanModel, changed: bool)
    requires
        plan.sound(),
        plan.index < plan.phases.len(),
        plan.preemptions <= PREEMPTION_BUDGET,
    ensures
        phases_left(plan) > 0,
        phases_left(plan.advanced(changed)) < phases_left(plan),
        phases_left(plan.advanced(changed)) >= 0,
        plan.may_preempt() ==> phases_left(plan.restarted(changed)) < phases_left(plan),
        plan.may_preempt() ==> phases_left(plan.restarted(changed)) >= 0,
{
    assert(Phase::order(true).len() == 3);
    assert(Phase::order(false).len() == 2);
}

/// What runs together: one invocation, or all invocations of a system that a hook
/// wraps.
#[derive(Debug)]
pub struct PlannedBatch {
    pub owner: SystemInvocation,
    pub access: Vec<Access>,
    pub invocations: Vec<PlannedInvocation>,
}

/// What a [`PlannedBatch`] plans.
#[verifier::ext_equal]
pub struct BatchModel {
    pub owner: Invocation,
    pub access: Seq<Access>,
    pub invocations: Seq<PlannedModel>,
}

impl View for PlannedBatch {
    type V = BatchModel;

    open spec fn view(&self) -> BatchModel {
        BatchModel {
            owner: self.owner@,
            access: self.access@,
            invocations: planned_view(self.invocations@),
        }
    }
}

/// What a list of batches plans.
pub open spec fn batches_view(batches: Seq<PlannedBatch>) -> Seq<BatchModel> {
    batches.map_values(|batch: PlannedBatch| batch@)
}

/// The batch of a single invocation.
pub open spec fn alone(planned: PlannedModel) -> BatchModel {
    BatchModel { owner: planned.owner, access: planned.access, invocations: seq![planned] }
}

/// Everything that planned invocations access, in order.
pub open spec fn accesses(plan: Seq<PlannedModel>) -> Seq<Access>
    decreases plan.len(),
{
    if plan.len() == 0 {
        Seq::empty()
    } else {
        accesses(plan.drop_last()) + plan.last().access
    }
}

/// The batches of a system's plan. A hook runs around all invocations of a wave,
/// so they run as one, under an owner without row keys, and with the access that
/// any of them needs; without a hook each runs for itself.
pub open spec fn batches_of(system: SystemModel, plan: Seq<PlannedModel>) -> Seq<BatchModel> {
    if !system.batched() {
        plan.map_values(|planned: PlannedModel| alone(planned))
    } else if plan.len() == 0 {
        Seq::empty()
    } else {
        seq![
            BatchModel {
                owner: Invocation { system: system.id, keys: Seq::empty() },
                access: accesses(plan),
                invocations: plan,
            },
        ]
    }
}

fn gather_access(plan: &Vec<PlannedInvocation>) -> (access: Vec<Access>)
    ensures
        access@ == accesses(planned_view(plan@)),
{
    let ghost all = planned_view(plan@);
    let mut access: Vec<Access> = Vec::new();
    let mut i: usize = 0;
    assert(all.take(0) =~= Seq::<PlannedModel>::empty());
    while i < plan.len()
        invariant
            i <= plan@.len(),
            all == planned_view(plan@),
            access@ =~= accesses(all.take(i as int)),
        decreases plan@.len() - i,
    {
        assert(all.take(i + 1).drop_last() =~= all.take(i as int));
        assert(all[i as int] == plan@[i as int]@);
        let mut more = copy_access(&plan[i].access);
        access.append(&mut more);
        i = i + 1;
    }
    assert(all.take(all.len() as int) =~= all);
    access
}

/// A batch writes in place exactly when one of its invocations does.
pub proof fn lemma_batch_writes_with_its_invocations(plan: Seq<PlannedModel>)
    ensures
        writes(accesses(plan)) <==> exists|i: int|
            0 <= i < plan.len() && writes((#[trigger] plan[i]).access),
    decreases plan.len(),
{
    if plan.len() > 0 {
        let rest = plan.drop_last();
        let head = accesses(rest);
        let tail = plan.last().access;
        lemma_batch_writes_with_its_invocations(rest);
        if writes(accesses(plan)) {
            let i = choose|i: int|
                0 <= i < accesses(plan).len() && (#[trigger] accesses(plan)[i]).kind
                    == AccessKind::Write;
            if i < head.len() {
                assert(head[i].kind == AccessKind::Write);
                let j = choose|j: int| 0 <= j < rest.len() && writes((#[trigger] rest[j]).access);
                assert(plan[j] == rest[j]);
            } else {
                assert(tail[i - head.len()].kind == AccessKind::Write);
                assert(writes(plan[plan.len() - 1].access));
            }
        }
        if exists|i: int| 0 <= i < plan.len() && writes((#[trigger] plan[i]).access) {
            let i = choose|i: int| 0 <= i < plan.len() && writes((#[trigger] plan[i]).access);
            if i < rest.len() {
                assert(rest[i] == plan[i]);
                let k = choose|k: int|
                    0 <= k < head.len() && (#[trigger] head[k]).kind == AccessKind::Write;
                assert(accesses(plan)[k] == head[k]);
            } else {
                let k = choose|k: int|
                    0 <= k < tail.len() && (#[trigger] tail[k]).kind == AccessKind::Write;
                assert(accesses(plan)[head.len() + k] == tail[k]);
            }
        }
    }
}

/// Groups a system's plan into what runs together.
pub fn batch_runs(system: &BoxedSystem, plan: Vec<PlannedInvocation>) -> (batches: Vec<
    PlannedBatch,
>)
    ensures
        batches_view(batches@) == batches_of(system@, planned_view(plan@)),
{
    let ghost all = planned_view(plan@);
    let ghost total = plan@.len();
    let mut batches: Vec<PlannedBatch> = Vec::new();
    if system.is_batched() {
        if plan.len() == 0 {
            assert(batches_view(batches@) =~= Seq::<BatchModel>::empty());
            return batches;
        }
        let access = gather_access(&plan);
        batches.push(PlannedBatch { owner: system.hook_owner(), access, invocations: plan });
        assert(batches_view(batches@) =~= batches_of(system@, all));
        return batches;
    }
    let mut rest = plan;
    let ghost mut done: int = 0;
    while rest.len() > 0
        invariant
            0 <= done,
            done + rest@.len() == total,
            all.len() == total,
            !system@.batched(),
            planned_view(rest@) =~= all.skip(done),
            batches_view(batches@) =~= batches_of(system@, all.take(done)),
        decreases rest@.len(),
    {
        let ghost held = rest@;
        let ghost before = batches@;
        let planned = rest.remove(0);
        assert(planned_view(held)[0] == all.skip(done)[0]);
        assert(planned@ == all[done]);
        assert(planned_view(rest@) =~= planned_view(held).drop_first());
        assert(all.skip(done + 1) =~= all.skip(done).drop_first());
        let owner = planned.owner.duplicate();
        let access = copy_access(&planned.access);
        let mut invocations: Vec<PlannedInvocation> = Vec::new();
        invocations.push(planned);
        assert(planned_view(invocations@) =~= seq![all[done]]);
        batches.push(PlannedBatch { owner, access, invocations });
        proof {
            assert(batches_view(batches@) =~= batches_view(before).push(alone(all[done])));
            assert(batches_of(system@, all.take(done + 1)) =~= batches_of(
                system@,
                all.take(done),
            ).push(alone(all[done])));
            done = done + 1;
        }
    }
    assert(all.take(done) =~= all);
    batches
}

/// What becomes of a planned batch.
#[derive(Debug, Clone, Copy, PartialEq, Eq, Structural)]
pub enum Admission {
    /// It is in flight already.
    Duplicate,
    /// It clashes with something in flight: its row must be planned again.
    Deferred,
    /// It runs, and only reads.
    Reader,
    /// It runs, and writes in place.
    Writer,
}

/// What the runner of a phase does next.
#[derive(Debug, Clone, Copy, PartialEq, Eq, Structural)]
pub enum DriverStep {
    /// Take a preemption boundary.
    Preempt,
    /// Plan another wave.
    Plan,
    /// Await the next finished run.
    Await,
}

/// One run in flight.
#[derive(Debug)]
pub struct RunInFlight {
    pub owner: SystemInvocation,
    pub access: Vec<Access>,
}

/// The runs of one phase that are in flight, and whether it has to be planned
/// again.
#[derive(Debug)]
pub struct PhaseDriver {
    running: Vec<RunInFlight>,
    needs_plan: bool,
    deferred_conflicts: bool,
    changed: bool,
    allow_preempt: bool,
}

/// What a [`PhaseDriver`] holds.
#[verifier::ext_equal]
pub struct DriverModel {
    pub running: Seq<(Invocation, Seq<Access>)>,
    pub needs_plan: bool,
    pub deferred: bool,
    pub changed: bool,
    pub allow_preempt: bool,
}

/// What a list of runs in flight holds.
pub open spec fn running_view(running: Seq<RunInFlight>) -> Seq<(Invocation, Seq<Access>)> {
    running.map_values(|run: RunInFlight| (run.owner@, run.access@))
}

impl View for PhaseDriver {
    type V = DriverModel;

    closed spec fn view(&self) -> DriverModel {
        DriverModel {
            running: running_view(self.running@),
            needs_plan: self.needs_plan,
            deferred: self.deferred_conflicts,
            changed: self.changed,
            allow_preempt: self.allow_preempt,
        }
    }
}

/// Whether an access list writes in place.
pub open spec fn writes(access: Seq<Access>) -> bool {
    exists|i: int| 0 <= i < access.len() && (#[trigger] access[i]).kind == AccessKind::Write
}

/// The runs other than that of `owner`.
pub open spec fn without_run(
    running: Seq<(Invocation, Seq<Access>)>,
    owner: Invocation,
) -> Seq<(Invocation, Seq<Access>)>
    decreases running.len(),
{
    if running.len() == 0 {
        Seq::empty()
    } else {
        let rest = without_run(running.drop_last(), owner);
        if running.last().0 == owner {
            rest
        } else {
            rest.push(running.last())
        }
    }
}

/// The runs that write in place.
pub open spec fn writers(running: Seq<(Invocation, Seq<Access>)>) -> Seq<
    (Invocation, Seq<Access>),
>
    decreases running.len(),
{
    if running.len() == 0 {
        Seq::empty()
    } else {
        let rest = writers(running.drop_last());
        if writes(running.last().1) {
            rest.push(running.last())
        } else {
            rest
        }
    }
}

impl DriverModel {
    /// Whether `owner` is in flight.
    pub open spec fn runs(self, owner: Invocation) -> bool {
        exists|i: int| 0 <= i < self.running.len() && (#[trigger] self.running[i]).0 == owner
    }

    /// Whether `access` clashes with a run in flight.
    pub open spec fn clashes(self, access: Seq<Access>) -> bool {
        exists|i: int|
            0 <= i < self.running.len() && lists_clash(access, (#[trigger] self.running[i]).1)
    }

    /// No invocation is in flight twice, and no two runs in flight clash.
    pub open spec fn safe(self) -> bool {
        forall|i: int, j: int|
            0 <= i < j < self.running.len() ==> (#[trigger] self.running[i]).0 != (
            #[trigger] self.running[j]).0 && !lists_clash(self.running[j].1, self.running[i].1)
    }

    /// What becomes of a batch of `owner` that needs `access`.
    pub open spec fn admission(self, owner: Invocation, access: Seq<Access>) -> Admission {
        if self.runs(owner) {
            Admission::Duplicate
        } else if self.clashes(access) {
            Admission::Deferred
        } else if writes(access) {
            Admission::Writer
        } else {
            Admission::Reader
        }
    }

    /// The driver after that.
    pub open spec fn admitted(self, owner: Invocation, access: Seq<Access>) -> DriverModel {
        match self.admission(owner, access) {
            Admission::Duplicate => self,
            Admission::Deferred => DriverModel { deferred: true, ..self },
            _ => DriverModel { running: self.running.push((owner, access)), ..self },
        }
    }

    /// What the runner does next.
    pub open spec fn step(self, requested: bool) -> DriverStep {
        if self.allow_preempt && requested {
            DriverStep::Preempt
        } else if self.needs_plan {
            DriverStep::Plan
        } else {
            DriverStep::Await
        }
    }
}

impl PhaseDriver {
    /// No two runs in flight clash.
    pub closed spec fn wf(&self) -> bool {
        self@.safe()
    }

    /// A well-formed driver has no two runs in flight that clash.
    pub proof fn lemma_safe(&self)
        requires
            self.wf(),
        ensures
            self@.safe(),
    {
    }

    /// The driver of a phase that has yet to be planned.
    pub fn new(allow_preempt: bool) -> (driver: Self)
        ensures
            driver.wf(),
            driver@ == (DriverModel {
                running: Seq::empty(),
                needs_plan: true,
                deferred: false,
                changed: false,
                allow_preempt,
            }),
    {
        let driver = PhaseDriver {
            running: Vec::new(),
            needs_plan: true,
            deferred_conflicts: false,
            changed: false,
            allow_preempt,
        };
        assert(driver@.running =~= Seq::<(Invocation, Seq<Access>)>::empty());
        driver
    }

    /// What the runner does next; `requested` says whether a mutator waits for a
    /// boundary.
    pub fn next_step(&self, requested: bool) -> (step: DriverStep)
        ensures
            step == self@.step(requested),
    {
        if self.allow_preempt && requested {
            DriverStep::Preempt
        } else if self.needs_plan {
            DriverStep::Plan
        } else {
            DriverStep::Await
        }
    }

    /// Whether the phase has changed the world.
    pub fn changed(&self) -> (changed: bool)
        ensures
            changed == self@.changed,
    {
        self.changed
    }

    /// Whether anything is in flight.
    pub fn idle(&self) -> (idle: bool)
        ensures
            idle == (self@.running.len() == 0),
    {
        assert(self@.running.len() == self.running@.len());
        self.running.len() == 0
    }

    /// Starts a planning wave.
    pub fn begin_wave(&mut self)
        requires
            old(self).wf(),
        ensures
            final(self).wf(),
            final(self)@ == (DriverModel { deferred: false, ..old(self)@ }),
    {
        self.deferred_conflicts = false;
    }

    fn position(&self, owner: &SystemInvocation) -> (at: Option<usize>)
        ensures
            match at {
                Some(at) => at < self@.running.len() && self@.running[at as int].0 == owner@,
                None => !self@.runs(owner@),
            },
    {
        let mut i: usize = 0;
        while i < self.running.len()
            invariant
                i <= self.running@.len(),
                forall|j: int| 0 <= j < i ==> (#[trigger] self@.running[j]).0 != owner@,
            decreases self.running@.len() - i,
        {
            assert(self@.running[i as int].0 == self.running@[i as int].owner@);
            if self.running[i].owner.same(owner) {
                return Some(i);
            }
            i = i + 1;
        }
        assert(self@.running.len() == self.running@.len());
        None
    }

    /// Whether `access` clashes with a run in flight.
    pub fn conflicts_with_running(&self, access: &Vec<Access>) -> (conflict: bool)
        ensures
            conflict == self@.clashes(access@),
    {
        let mut i: usize = 0;
        while i < self.running.len()
            invariant
                i <= self.running@.len(),
                forall|j: int|
                    0 <= j < i ==> !lists_clash(access@, (#[trigger] self@.running[j]).1),
            decreases self.running@.len() - i,
        {
            assert(self@.running[i as int].1 == self.running@[i as int].access@);
            if access_lists_conflict(access, &self.running[i].access) {
                return true;
            }
            i = i + 1;
        }
        assert(self@.running.len() == self.running@.len());
        false
    }

    /// Takes a planned batch up, unless it is in flight already or clashes with
    /// something that is.
    pub fn take_up(&mut self, owner: &SystemInvocation, access: &Vec<Access>) -> (admission: Admission)
        requires
            old(self).wf(),
        ensures
            final(self).wf(),
            admission == old(self)@.admission(owner@, access@),
            final(self)@ == old(self)@.admitted(owner@, access@),
    {
        let ghost before = self@;
        if self.position(owner).is_some() {
            return Admission::Duplicate;
        }
        if self.conflicts_with_running(access) {
            self.deferred_conflicts = true;
            return Admission::Deferred;
        }
        self.running.push(RunInFlight { owner: owner.duplicate(), access: copy_access(access) });
        proof {
            assert(self@.running =~= before.running.push((owner@, access@)));
            let running = self@.running;
            assert forall|i: int, j: int| 0 <= i < j < running.len() implies (
            #[trigger] running[i]).0 != (#[trigger] running[j]).0 && !lists_clash(
                running[j].1,
                running[i].1,
            ) by {
                assert(running[i] == before.running[i]);
                if j < before.running.len() {
                    assert(running[j] == before.running[j]);
                }
            }
        }
        if any_write(access) {
            Admission::Writer
        } else {
            Admission::Reader
        }
    }

    /// Takes a run out of flight.
    pub fn finish(&mut self, owner: &SystemInvocation)
        requires
            old(self).wf(),
        ensures
            final(self).wf(),
            final(self)@ == (DriverModel {
                running: without_run(old(self)@.running, owner@),
                ..old(self)@
            }),
    {
        let ghost before = self@;
        proof {
            lemma_without_run_safe(before.running, owner@);
        }
        match self.position(owner) {
            Some(at) => {
                let _ = self.running.remove(at);
                proof {
                    lemma_without_one_run(before.running, owner@, at as int);
                    assert(self@.running =~= before.running.remove(at as int));
                }
            },
            None => {
                proof {
                    lemma_without_absent_run(before.running, owner@);
                }
            },
        }
    }

    /// Drops the runs that only read: their buffered commands vanish. Runs that
    /// write in place stay, to be drained.
    pub fn drop_readers(&mut self)
        requires
            old(self).wf(),
        ensures
            final(self).wf(),
            final(self)@ == (DriverModel { running: writers(old(self)@.running), ..old(self)@ }),
    {
        let ghost before = self@;
        let ghost total = self.running@.len();
        let mut rest: Vec<RunInFlight> = Vec::new();
        rest.append(&mut self.running);
        assert(running_view(rest@) =~= before.running);
        let mut kept: Vec<RunInFlight> = Vec::new();
        let ghost mut done: int = 0;
        assert(before.running.take(0) =~= Seq::<(Invocation, Seq<Access>)>::empty());
        assert(running_view(kept@) =~= Seq::<(Invocation, Seq<Access>)>::empty());
        while rest.len() > 0
            invariant
                0 <= done,
                done + rest@.len() == total,
                before.running.len() == total,
                running_view(rest@) =~= before.running.skip(done),
                running_view(kept@) == writers(before.running.take(done)),
            decreases rest@.len(),
        {
            let ghost held = rest@;
            let ghost kept_before = kept@;
            let run = rest.remove(0);
            assert(running_view(held)[0] == before.running.skip(done)[0]);
            assert((run.owner@, run.access@) == before.running[done]);
            assert(before.running.take(done + 1).drop_last() =~= before.running.take(done));
            assert(running_view(rest@) =~= running_view(held).drop_first());
            assert(before.running.skip(done + 1) =~= before.running.skip(done).drop_first());
            if any_write(&run.access) {
                kept.push(run);
                assert(running_view(kept@) =~= running_view(kept_before).push(
                    before.running[done],
                ));
            }
            proof {
                done = done + 1;
            }
        }
        assert(before.running.take(done) =~= before.running);
        self.running = kept;
        proof {
            lemma_writers_safe(before.running);
        }
    }

    /// Records the commits of a batch that finished while nothing needed
    /// planning. The phase is looked at again.
    pub fn idle_batch(&mut self, followup: bool)
        requires
            old(self).wf(),
        ensures
            final(self).wf(),
            final(self)@ == (DriverModel {
                changed: old(self)@.changed || followup,
                ..old(self)@
            }),
    {
        self.changed = self.changed || followup;
    }

    /// Records the commits of a finished batch. Another wave is due when a commit
    /// changed the world, when a stale run left its row invalid, or when a
    /// deferred row waits for the access that the batch released.
    pub fn after_batch(&mut self, followup: bool, stale: bool)
        requires
            old(self).wf(),
        ensures
            final(self).wf(),
            final(self)@ == (DriverModel {
                changed: old(self)@.changed || followup,
                needs_plan: followup || stale || old(self)@.deferred,
                ..old(self)@
            }),
    {
        self.changed = self.changed || followup;
        self.needs_plan = followup || stale || self.deferred_conflicts;
    }

    /// Records that the wait was interrupted by a mutator.
    pub fn interrupted(&mut self)
        requires
            old(self).wf(),
        ensures
            final(self).wf(),
            final(self)@ == (DriverModel { needs_plan: false, ..old(self)@ }),
    {
        self.needs_plan = false;
    }
}

fn any_write(access: &Vec<Access>) -> (found: bool)
    ensures
        found == writes(access@),
{
    let mut i: usize = 0;
    while i < access.len()
        invariant
            i <= access@.len(),
            forall|j: int| 0 <= j < i ==> (#[trigger] access@[j]).kind != AccessKind::Write,
        decreases access@.len() - i,
    {
        if access[i].kind == AccessKind::Write {
            assert(access@[i as int].kind == AccessKind::Write);
            return true;
        }
        i = i + 1;
    }
    false
}

/// Whether `some` is a part of `all`, in the same order.
spec fn part_of(
    some: Seq<(Invocation, Seq<Access>)>,
    all: Seq<(Invocation, Seq<Access>)>,
    places: Seq<int>,
) -> bool {
    &&& places.len() == some.len()
    &&& forall|i: int|
        0 <= i < some.len() ==> 0 <= #[trigger] places[i] < all.len() && some[i] == all[places[i]]
    &&& forall|i: int, j: int|
        0 <= i < j < some.len() ==> #[trigger] places[i] < #[trigger] places[j]
}

proof fn lemma_part_is_safe(
    some: Seq<(Invocation, Seq<Access>)>,
    all: DriverModel,
    places: Seq<int>,
)
    requires
        all.safe(),
        part_of(some, all.running, places),
    ensures
        (DriverModel { running: some, ..all }).safe(),
{
    assert forall|i: int, j: int| 0 <= i < j < some.len() implies (#[trigger] some[i]).0 != (
    #[trigger] some[j]).0 && !lists_clash(some[j].1, some[i].1) by {
        assert(places[i] < places[j]);
        assert(some[i] == all.running[places[i]]);
        assert(some[j] == all.running[places[j]]);
    }
}

proof fn lemma_without_run_part(running: Seq<(Invocation, Seq<Access>)>, owner: Invocation) -> (places:
    Seq<int>)
    ensures
        part_of(without_run(running, owner), running, places),
    decreases running.len(),
{
    if running.len() == 0 {
        Seq::empty()
    } else {
        let rest = running.drop_last();
        let fewer = lemma_without_run_part(rest, owner);
        assert forall|i: int| 0 <= i < fewer.len() implies running[#[trigger] fewer[i]]
            == rest[fewer[i]] by {}
        if running.last().0 == owner {
            fewer
        } else {
            let places = fewer.push(running.len() - 1);
            let some = without_run(running, owner);
            assert forall|i: int| 0 <= i < some.len() implies 0 <= #[trigger] places[i]
                < running.len() && some[i] == running[places[i]] by {
                if i < fewer.len() {
                    assert(places[i] == fewer[i]);
                }
            }
            places
        }
    }
}

proof fn lemma_without_run_safe(running: Seq<(Invocation, Seq<Access>)>, owner: Invocation)
    ensures
        forall|driver: DriverModel|
            driver.running == running && #[trigger] driver.safe() ==> (DriverModel {
                running: without_run(running, owner),
                ..driver
            }).safe(),
{
    let places = lemma_without_run_part(running, owner);
    assert forall|driver: DriverModel|
        driver.running == running && #[trigger] driver.safe() implies (DriverModel {
        running: without_run(running, owner),
        ..driver
    }).safe() by {
        lemma_part_is_safe(without_run(running, owner), driver, places);
    }
}

proof fn lemma_without_absent_run(running: Seq<(Invocation, Seq<Access>)>, owner: Invocation)
    requires
        forall|i: int| 0 <= i < running.len() ==> (#[trigger] running[i]).0 != owner,
    ensures
        without_run(running, owner) == running,
    decreases running.len(),
{
    if running.len() > 0 {
        let rest = running.drop_last();
        assert forall|i: int| 0 <= i < rest.len() implies (#[trigger] rest[i]).0 != owner by {
            assert(running[i] == rest[i]);
        }
        lemma_without_absent_run(rest, owner);
        assert(running[running.len() - 1].0 != owner);
        assert(rest.push(running.last()) =~= running);
    } else {
        assert(without_run(running, owner) =~= running);
    }
}

proof fn lemma_without_one_run(
    running: Seq<(Invocation, Seq<Access>)>,
    owner: Invocation,
    at: int,
)
    requires
        0 <= at < running.len(),
        running[at].0 == owner,
        forall|i: int, j: int|
            0 <= i < j < running.len() ==> (#[trigger] running[i]).0 != (#[trigger] running[j]).0,
    ensures
        without_run(running, owner) == running.remove(at),
    decreases running.len(),
{
    let rest = running.drop_last();
    assert forall|i: int, j: int| 0 <= i < j < rest.len() implies (#[trigger] rest[i]).0 != (
    #[trigger] rest[j]).0 by {
        assert(running[i] == rest[i] && running[j] == rest[j]);
    }
    if at == running.len() - 1 {
        assert forall|i: int| 0 <= i < rest.len() implies (#[trigger] rest[i]).0 != owner by {
            assert(running[i] == rest[i]);
        }
        lemma_without_absent_run(rest, owner);
        assert(rest =~= running.remove(at));
    } else {
        lemma_without_one_run(rest, owner, at);
        assert(running[at].0 != running[running.len() - 1].0);
        assert(rest.remove(at).push(running.last()) =~= running.remove(at));
    }
}

proof fn lemma_writers_part(running: Seq<(Invocation, Seq<Access>)>) -> (places: Seq<int>)
    ensures
        part_of(writers(running), running, places),
    decreases running.len(),
{
    if running.len() == 0 {
        Seq::empty()
    } else {
        let rest = running.drop_last();
        let fewer = lemma_writers_part(rest);
        assert forall|i: int| 0 <= i < fewer.len() implies running[#[trigger] fewer[i]]
            == rest[fewer[i]] by {}
        if writes(running.last().1) {
            let places = fewer.push(running.len() - 1);
            let some = writers(running);
            assert forall|i: int| 0 <= i < some.len() implies 0 <= #[trigger] places[i]
                < running.len() && some[i] == running[places[i]] by {
                if i < fewer.len() {
                    assert(places[i] == fewer[i]);
                }
            }
            places
        } else {
            fewer
        }
    }
}

proof fn lemma_writers_safe(running: Seq<(Invocation, Seq<Access>)>)
    ensures
        forall|driver: DriverModel|
            driver.running == running && #[trigger] driver.safe() ==> (DriverModel {
                running: writers(running),
                ..driver
            }).safe(),
{
    let places = lemma_writers_part(running);
    assert forall|driver: DriverModel|
        driver.running == running && #[trigger] driver.safe() implies (DriverModel {
        running: writers(running),
        ..driver
    }).safe() by {
        lemma_part_is_safe(writers(running), driver, places);
    }
}

proof fn lemma_lists_clash_symmetric(a: Seq<Access>, b: Seq<Access>)
    ensures
        lists_clash(a, b) ==> lists_clash(b, a),
{
    if lists_clash(a, b) {
        let (i, j) = choose|i: int, j: int|
            0 <= i < a.len() && 0 <= j < b.len() && (#[trigger] a[i]).clashes(#[trigger] b[j]);
        crate::access::lemma_clash_is_symmetric(a[i], b[j]);
        assert(b[j].clashes(a[i]));
    }
}

/// A row in use is never written beside its user: two runs in flight never touch
/// the same component row unless both only read it.
pub proof fn lemma_runs_in_flight_never_clash(
    driver: DriverModel,
    i: int,
    j: int,
)
    requires
        driver.safe(),
        0 <= i < driver.running.len(),
        0 <= j < driver.running.len(),
        i != j,
    ensures
        !lists_clash(driver.running[i].1, driver.running[j].1),
        driver.running[i].0 != driver.running[j].0,
{
    if i < j {
        assert(driver.running[i].0 != driver.running[j].0);
        lemma_lists_clash_symmetric(driver.running[i].1, driver.running[j].1);
    } else {
        assert(driver.running[j].0 != driver.running[i].0);
    }
}

} // verus!
