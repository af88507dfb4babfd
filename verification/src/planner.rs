//! Forward HTN planner with MTR (Method Traversal Record) backtracking.

use crate::domain::{
    first_valid_is_the_least, CompoundTask, HtnDomain, Method, PrimitiveTask, SelectionPolicy, Task,
};
use crate::error::{HtnError, HtnResult};
use crate::lookahead::{sweep, Lookahead, SweepDepth};
use crate::model::{all_fit, evaluate_all, ModelState, PlanModel};
use crate::names::{name_text, text_of};
use crate::order::{linearize, orders_are_the_topological_orders, topo_orders, MemberOrder, SubtaskOrder};
use crate::ranking::{holds_u32, ranked_methods, ranking_keeps_every_valid_branch};
use crate::rollback::{apply_journaled, lemma_rewind_extends, rewound, Rollback};
use crate::search::{
    after_failure, candidate, child_of, cost_sum, dead_end, event, explore, foreseen, frame_of,
    has_task, lemma_explore_left, lemma_passed_left, members_at, members_from, members_in_order,
    method_base, next_position, passed_over, pick, pin_at, prefix_of, priced_out, refused, rejected,
    restored, run_primitive, sweep_end, tier_of, traced, unwind, work_of, Commit, FrameView,
    Incumbent, Node, Outcome, Prefix, Progress, SearchConfig, Step, SweepTier, Verdict,
    ADAPTIVE_SWEEP_TRIALS,
};
use crate::selection::{DecompositionTrace, HtnSearchStrategy, LookaheadMode, Searcher, TraceOutcome};
use crate::state::{copy_indices, PlanState};
use crate::text::{decimal, decimal_text, join3};
use std::collections::VecDeque;
use ustr::Ustr;
use vstd::prelude::*;

verus! {

/// Whether a compiled [`Plan`] is the finished product of a completed
/// decomposition, or the prefix cut out of a search that stopped early.
#[derive(Debug, Clone, Copy, PartialEq, Eq, Structural)]
pub enum PlanStatus {
    /// The search ran to completion: the plan is final.
    Complete,
    /// The search stopped early (budget exhausted or fail-fast): this is the
    /// partial plan found so far and may not reach the goal.
    Partial,
    /// The search stopped at a pause marker. The work still queued behind the
    /// marker is the plan's resume point.
    Paused,
}

/// One entry of a paused plan's resume queue.
#[derive(Debug, Clone, Copy, PartialEq, Eq, Structural)]
pub enum ResumeStep {
    /// A task occurrence queued behind the pause.
    Task(u32),
    /// A pause marker queued behind the first one.
    Pause,
}

/// The resume point of a plan truncated by a pause marker: the work still
/// queued behind the marker, plus the method choices as they stood there.
#[derive(Debug, PartialEq, Eq)]
pub struct ResumePoint {
    /// The remaining decomposition work in execution order.
    pub tasks: Vec<ResumeStep>,
    /// The method choices from the root down to the method that holds the
    /// marker.
    pub mtr: Vec<usize>,
}

/// The compiled plan that a planner returns: a flat step program over the
/// domain's task indices.
#[derive(Debug, PartialEq, Eq)]
pub struct Plan {
    /// Task indices, in execution order.
    pub steps: Vec<u32>,
    /// Task names, parallel to `steps`.
    pub names: Vec<Ustr>,
    /// The index of the chosen method at each decomposition.
    pub mtr: Vec<usize>,
    /// Whether the search finished.
    pub status: PlanStatus,
    /// The remaining work when the plan was truncated by a pause marker.
    pub resume: Option<ResumePoint>,
}

/// A decomposition that the search can come back to. The plan and the method
/// choices only grow below it, so their lengths are enough to restore them; the
/// scratchpad is restored from the journal.
struct DecompositionFrame {
    task: usize,
    plan_len: usize,
    method: usize,
    resume: usize,
    mtr_len: usize,
    pinned: Option<u32>,
    queue: Vec<Step>,
    rollback_len: usize,
    g: u64,
    lin: u32,
    lin_total: u32,
}

/// The best complete plan found so far.
struct BestPlan {
    plan: Vec<usize>,
    mtr: Vec<usize>,
    cost: u64,
}

/// How far the plan had come when a branch was first left out for want of budget.
struct CutPlan {
    plan: Vec<usize>,
    mtr: Vec<usize>,
}

/// A branch to commit to.
struct Choice {
    method: usize,
    pins: Vec<(usize, usize)>,
    resume: usize,
}

/// One running search.
struct Search<'a, M: PlanModel> {
    domain: &'a HtnDomain<M>,
    cfg: SearchConfig,
    queue: VecDeque<Step>,
    frames: Vec<DecompositionFrame>,
    plan: Vec<usize>,
    mtr: Vec<usize>,
    g: u64,
    state: PlanState<M::Component>,
    rollback: Rollback<M::Component>,
    left: usize,
    method_base: Vec<usize>,
    sweep_streaks: Vec<u32>,
    best: Option<BestPlan>,
    cut: Option<CutPlan>,
    trace: Vec<DecompositionTrace>,
}

/// Whether a queue entry names what the domain has.
spec fn step_ok<M: PlanModel>(d: HtnDomain<M>, step: Step) -> bool {
    match step {
        Step::Task(t, pin) => t < d.tasks@.len(),
        Step::Pause => true,
        Step::Linearize { task, method, lin } => {
            &&& task < d.tasks@.len()
            &&& d.tasks@[task as int] is Compound
            &&& method < d.tasks@[task as int]->Compound_0.methods@.len()
            &&& d.tasks@[task as int]->Compound_0.methods@[method as int].order is Partial
            &&& lin < d.tasks@[task as int]->Compound_0.methods@[method as int].order->orders
        },
    }
}

/// Whether a queue holds nothing but tasks and pause markers of the domain.
spec fn plain_queue<M: PlanModel>(d: HtnDomain<M>, queue: Seq<Step>) -> bool {
    forall|i: int|
        0 <= i < queue.len() ==> step_ok(d, #[trigger] queue[i]) && !(queue[i] is Linearize)
}

/// Whether a queue may be handed to the search: only its front may ask for a
/// linearization.
spec fn search_queue<M: PlanModel>(d: HtnDomain<M>, queue: Seq<Step>) -> bool {
    queue.len() > 0 ==> step_ok(d, queue[0]) && plain_queue(d, queue.skip(1))
}

/// Whether every entry of a plan is a task of the domain.
pub open spec fn plan_ok<M: PlanModel>(d: HtnDomain<M>, plan: Seq<usize>) -> bool {
    forall|i: int| 0 <= i < plan.len() ==> (#[trigger] plan[i]) < d.tasks@.len()
}

impl DecompositionFrame {
    spec fn ok<M: PlanModel>(&self, d: HtnDomain<M>) -> bool {
        &&& self.task < d.tasks@.len()
        &&& d.tasks@[self.task as int] is Compound
        &&& self.method < d.tasks@[self.task as int]->Compound_0.methods@.len()
        &&& plain_queue(d, self.queue@)
        &&& self.lin > 0 ==> {
            let order = d.tasks@[self.task as int]->Compound_0.methods@[self.method as int].order;
            order is Partial && self.lin_total == order->orders && self.lin <= self.lin_total
        }
    }
}

impl<'a, M: PlanModel> Search<'a, M> {
    spec fn node(&self) -> Node<M::Component> {
        Node {
            state: self.state@,
            queue: self.queue@,
            plan: self.plan@,
            mtr: self.mtr@,
            g: self.g,
        }
    }

    spec fn progress(&self) -> Progress {
        Progress {
            left: self.left as nat,
            streaks: self.sweep_streaks@,
            best: match self.best {
                Some(b) => Some(Incumbent { plan: b.plan@, mtr: b.mtr@, cost: b.cost }),
                None => None,
            },
            cut: match self.cut {
                Some(c) => Some(Prefix { plan: c.plan@, mtr: c.mtr@ }),
                None => None,
            },
            trace: self.trace@,
        }
    }

    spec fn frame_at(&self, i: int) -> FrameView<M::Component> {
        let f = self.frames@[i];
        FrameView {
            task: f.task,
            pinned: f.pinned,
            resume: f.resume as nat,
            method: f.method,
            lin: f.lin as nat,
            lin_total: f.lin_total as nat,
            state: rewound(self.state@, self.rollback.view(), f.rollback_len as nat),
            queue: f.queue@,
            plan: self.plan@.take(f.plan_len as int),
            mtr: self.mtr@.take(f.mtr_len as int),
            g: f.g,
        }
    }

    spec fn frame_views(&self) -> Seq<FrameView<M::Component>> {
        Seq::new(self.frames@.len(), |i: int| self.frame_at(i))
    }

    /// Everything but the queue is in order.
    spec fn base_ok(&self) -> bool {
        let d = *self.domain;
        &&& d.wf()
        &&& d.baked()
        &&& self.state@.len() == d.slots()
        &&& plan_ok(d, self.plan@)
        &&& self.best matches Some(b) ==> plan_ok(d, b.plan@)
        &&& self.cut matches Some(c) ==> plan_ok(d, c.plan@)
        &&& forall|i: int|
            0 <= i < self.rollback.view().len() ==> (#[trigger] self.rollback.view()[i]).0
                < d.slots()
        &&& forall|i: int| 0 <= i < self.frames@.len() ==> (#[trigger] self.frames@[i]).ok(d)
        &&& forall|i: int|
            0 <= i < self.frames@.len() ==> (#[trigger] self.frames@[i]).plan_len <= self.plan@.len()
                && self.frames@[i].mtr_len <= self.mtr@.len() && self.frames@[i].rollback_len
                <= self.rollback.view().len()
        &&& forall|i: int, j: int|
            0 <= i <= j < self.frames@.len() ==> (#[trigger] self.frames@[i]).plan_len <= (
            #[trigger] self.frames@[j]).plan_len && self.frames@[i].mtr_len
                <= self.frames@[j].mtr_len && self.frames@[i].rollback_len
                <= self.frames@[j].rollback_len
        &&& self.cfg.lookahead is Adaptive ==> {
            &&& self.method_base@.len() == d.tasks@.len()
            &&& self.sweep_streaks@.len() == method_base(d, d.tasks@.len())
            &&& forall|t: int|
                0 <= t < d.tasks@.len() ==> (#[trigger] self.method_base@[t]) == method_base(
                    d,
                    t as nat,
                )
        }
    }

    spec fn ok(&self) -> bool {
        &&& self.base_ok()
        &&& search_queue(*self.domain, self.queue@)
    }

    /// Records a branch decision.
    fn note(&mut self, task: usize, method: usize, outcome: TraceOutcome)
        requires
            task < old(self).domain.tasks@.len() <= u32::MAX,
            old(self).domain.tasks@[task as int] is Compound,
            method < old(self).domain.tasks@[task as int]->Compound_0.methods@.len(),
        ensures
            final(self).progress() == traced(
                old(self).cfg,
                old(self).progress(),
                event(*old(self).domain, task as nat, method as nat, outcome),
            ),
            final(self).domain == old(self).domain,
            final(self).cfg == old(self).cfg,
            final(self).queue == old(self).queue,
            final(self).frames == old(self).frames,
            final(self).plan == old(self).plan,
            final(self).mtr == old(self).mtr,
            final(self).g == old(self).g,
            final(self).state == old(self).state,
            final(self).rollback == old(self).rollback,
            final(self).left == old(self).left,
            final(self).method_base == old(self).method_base,
            final(self).sweep_streaks == old(self).sweep_streaks,
            final(self).best == old(self).best,
            final(self).cut == old(self).cut,
    {
        if self.cfg.tracing {
            let domain = self.domain;
            let name = match &domain.tasks[task] {
                Task::Compound(c) => c.methods[method].name,
                _ => None,
            };
            self.trace.push(
                DecompositionTrace {
                    compound: task as u32,
                    branch: method as u32,
                    branch_name: name,
                    outcome,
                },
            );
        }
    }

    /// Replaces the queue by `step` and what a frame had queued behind it.
    fn requeue(&mut self, step: Step, rest: &Vec<Step>)
        ensures
            final(self).queue@ == seq![step] + rest@,
            final(self).domain == old(self).domain,
            final(self).cfg == old(self).cfg,
            final(self).frames == old(self).frames,
            final(self).plan == old(self).plan,
            final(self).mtr == old(self).mtr,
            final(self).g == old(self).g,
            final(self).state == old(self).state,
            final(self).rollback == old(self).rollback,
            final(self).left == old(self).left,
            final(self).method_base == old(self).method_base,
            final(self).sweep_streaks == old(self).sweep_streaks,
            final(self).best == old(self).best,
            final(self).cut == old(self).cut,
            final(self).trace == old(self).trace,
    {
        let mut queue: VecDeque<Step> = VecDeque::new();
        queue.push_back(step);
        assert(queue@ =~= seq![step] + rest@.take(0));
        for i in 0..rest.len()
            invariant
                queue@ == seq![step] + rest@.take(i as int),
        {
            queue.push_back(rest[i]);
            assert(rest@.take(i + 1) =~= rest@.take(i as int).push(rest@[i as int]));
            assert(queue@ =~= seq![step] + rest@.take(i + 1));
        }
        assert(rest@.take(rest@.len() as int) =~= rest@);
        self.queue = queue;
    }

    /// Unwinds to the most recent decomposition that has a choice left, restores
    /// the search to it, and puts that choice in front of the queue. Returns the
    /// position at which its branches are resumed, or `None` when the search is
    /// exhausted.
    fn backtrack(&mut self) -> (pos: Option<usize>)
        requires
            old(self).base_ok(),
        ensures
            final(self).base_ok(),
            final(self).domain == old(self).domain,
            final(self).cfg == old(self).cfg,
            final(self).left == old(self).left,
            match pos {
                Some(pos) => {
                    &&& final(self).ok()
                    &&& final(self).queue@.len() > 0
                    &&& unwind(
                        *old(self).domain,
                        old(self).cfg,
                        old(self).frame_views(),
                        (Verdict::Fail, old(self).progress()),
                    ) == unwind(
                        *old(self).domain,
                        old(self).cfg,
                        final(self).frame_views(),
                        explore(
                            *old(self).domain,
                            old(self).cfg,
                            final(self).node(),
                            pos as nat,
                            final(self).progress(),
                        ),
                    )
                },
                None => {
                    &&& final(self).best == old(self).best
                    &&& unwind(
                        *old(self).domain,
                        old(self).cfg,
                        old(self).frame_views(),
                        (Verdict::Fail, old(self).progress()),
                    ) == (Verdict::Fail, final(self).progress())
                },
            },
    {
        let ghost target = unwind(
            *self.domain,
            self.cfg,
            self.frame_views(),
            (Verdict::Fail, self.progress()),
        );
        loop
            invariant
                self.base_ok(),
                self.domain == old(self).domain,
                self.cfg == old(self).cfg,
                self.left == old(self).left,
                self.best == old(self).best,
                self.cut == old(self).cut,
                target == unwind(
                    *self.domain,
                    self.cfg,
                    self.frame_views(),
                    (Verdict::Fail, self.progress()),
                ),
                target == unwind(
                    *old(self).domain,
                    old(self).cfg,
                    old(self).frame_views(),
                    (Verdict::Fail, old(self).progress()),
                ),
            decreases self.frames@.len(),
        {
            let ghost views = self.frame_views();
            let ghost before = *self;
            let ghost n = self.frames@.len();
            let popped = self.frames.pop();
            let frame = match popped {
                Some(frame) => frame,
                None => {
                    return None;
                },
            };
            let ghost view = before.frame_at(n - 1);
            proof {
                assert(views.last() == view);
                assert(before.frames@[n - 1] == frame);
                assert(frame.ok(*self.domain));
            }
            self.plan.truncate(frame.plan_len);
            self.mtr.truncate(frame.mtr_len);
            self.rollback.restore_to(frame.rollback_len, &mut self.state);
            self.g = frame.g;
            proof {
                lemma_restored_views(before, *self, frame);
                assert(self.frame_views() =~= views.drop_last());
            }
            if frame.lin > 0 && frame.lin < frame.lin_total {
                self.note(frame.task, frame.method, TraceOutcome::Backtracked);
                let step = Step::Linearize {
                    task: frame.task as u32,
                    method: frame.method as u32,
                    lin: frame.lin,
                };
                self.requeue(step, &frame.queue);
                let ghost p1 = self.progress();
                let ghost lower = *self;
                self.frames.push(
                    DecompositionFrame { lin: frame.lin + 1, ..frame },
                );
                proof {
                    assert(self.frames@.drop_last() =~= lower.frames@);
                    lemma_pushed_views(lower, *self);
                    let next = self.frame_at(n - 1);
                    assert(next.plan =~= view.plan);
                    assert(next.mtr =~= view.mtr);
                    assert(next.state == view.state);
                    assert(next == (FrameView { lin: view.lin + 1, ..view }));
                    assert(self.node() == restored(view, step));
                    assert(self.queue@.skip(1) =~= frame.queue@);
                    lemma_explore_left(*self.domain, self.cfg, self.node(), 0, p1);
                    lemma_unwind_push(
                        *self.domain,
                        self.cfg,
                        views.drop_last(),
                        next,
                        explore(*self.domain, self.cfg, self.node(), 0, p1),
                    );
                    assert(self.frame_views() =~= views.drop_last().push(next));
                }
                return Some(0);
            }
            self.note(frame.task, frame.method, TraceOutcome::Backtracked);
            if frame.pinned.is_some() {
                assert(self.frame_views() =~= views.drop_last());
                continue;
            }
            let step = Step::Task(frame.task, frame.pinned);
            self.requeue(step, &frame.queue);
            proof {
                assert(self.node() == restored(view, step));
                assert(self.queue@.skip(1) =~= frame.queue@);
                assert(self.frame_views() =~= views.drop_last());
            }
            return Some(frame.resume);
        }
    }
}

proof fn lemma_unwind_push<M: PlanModel>(
    d: HtnDomain<M>,
    cfg: SearchConfig,
    frames: Seq<FrameView<M::Component>>,
    f: FrameView<M::Component>,
    r: (Verdict, Progress),
)
    ensures
        unwind(d, cfg, frames.push(f), r) == unwind(
            d,
            cfg,
            frames,
            if r.0 is Fail {
                after_failure(d, cfg, f, r.1)
            } else {
                r
            },
        ),
{
    assert(frames.push(f).drop_last() =~= frames);
    assert(frames.push(f).last() == f);
}

/// Restoring the search to its newest frame leaves the views of the frames
/// below as they were, and makes the node what that frame recorded.
proof fn lemma_restored_views<'a, M: PlanModel>(
    before: Search<'a, M>,
    after: Search<'a, M>,
    frame: DecompositionFrame,
)
    requires
        before.base_ok(),
        before.frames@.len() > 0,
        frame == before.frames@[before.frames@.len() - 1],
        after.frames@ == before.frames@.drop_last(),
        after.plan@ == before.plan@.take(frame.plan_len as int),
        after.mtr@ == before.mtr@.take(frame.mtr_len as int),
        after.state@ == rewound(before.state@, before.rollback.view(), frame.rollback_len as nat),
        after.rollback.view() == before.rollback.view().take(frame.rollback_len as int),
    ensures
        forall|i: int|
            0 <= i < after.frames@.len() ==> #[trigger] after.frame_at(i) == before.frame_at(i),
{
    assert forall|i: int| 0 <= i < after.frames@.len() implies #[trigger] after.frame_at(i)
        == before.frame_at(i) by {
        let f = before.frames@[i];
        let last = before.frames@[before.frames@.len() - 1];
        assert(f.plan_len <= last.plan_len);
        assert(after.plan@.take(f.plan_len as int) =~= before.plan@.take(f.plan_len as int));
        assert(after.mtr@.take(f.mtr_len as int) =~= before.mtr@.take(f.mtr_len as int));
        lemma_rewind_extends(
            after.state@,
            after.rollback.view(),
            before.state@,
            before.rollback.view(),
            f.rollback_len as nat,
        );
    }
}

/// Pushing a frame leaves the views of the frames below as they were.
proof fn lemma_pushed_views<'a, M: PlanModel>(before: Search<'a, M>, after: Search<'a, M>)
    requires
        after.frames@.len() == before.frames@.len() + 1,
        after.frames@.drop_last() == before.frames@,
        after.plan@ == before.plan@,
        after.mtr@ == before.mtr@,
        after.state@ == before.state@,
        after.rollback.view() == before.rollback.view(),
    ensures
        after.frame_views() == before.frame_views().push(after.frame_at(before.frames@.len() as int)),
{
    assert forall|i: int| 0 <= i < before.frames@.len() implies #[trigger] after.frame_at(i)
        == before.frame_at(i) by {
        assert(after.frames@[i] == after.frames@.drop_last()[i]);
    }
    assert(after.frame_views() =~= before.frame_views().push(
        after.frame_at(before.frames@.len() as int),
    ));
}

/// The method that a member position is pinned to, if any.
fn find_pin(pins: &Vec<(usize, usize)>, pos: usize) -> (pin: Option<u32>)
    ensures
        pin == pin_at(pins@, pos as int, 0),
{
    let mut k: usize = 0;
    while k < pins.len()
        invariant
            k <= pins@.len(),
            pin_at(pins@, pos as int, 0) == pin_at(pins@, pos as int, k as nat),
        decreases pins@.len() - k,
    {
        if pins[k].0 == pos {
            return Some(pins[k].1 as u32);
        }
        k = k + 1;
    }
    None
}

/// Puts a totally-ordered method's members in front of the queue, with the pause
/// markers between them.
fn push_total<M: PlanModel>(queue: &mut VecDeque<Step>, m: &Method<M>, pins: &Vec<(usize, usize)>)
    requires
        m.subtasks@.len() <= u32::MAX,
    ensures
        final(queue)@ == members_from(*m, pins@, 0) + old(queue)@,
{
    let n: usize = m.subtasks.len();
    let ghost base = queue@;
    if holds_u32(&m.pause_positions, n as u32) {
        queue.push_front(Step::Pause);
    }
    assert(queue@ =~= members_from(*m, pins@, n as nat) + base);
    let mut pos: usize = n;
    while pos > 0
        invariant
            pos <= n,
            n == m.subtasks@.len() <= u32::MAX,
            queue@ == members_from(*m, pins@, pos as nat) + base,
        decreases pos,
    {
        let ghost behind = members_from(*m, pins@, pos as nat);
        pos = pos - 1;
        let task = Step::Task(m.subtasks[pos] as usize, find_pin(pins, pos));
        queue.push_front(task);
        if holds_u32(&m.pause_positions, pos as u32) {
            queue.push_front(Step::Pause);
        }
        assert(queue@ =~= members_from(*m, pins@, pos as nat) + base);
    }
}

/// Puts a method's members in front of the queue in the given order.
fn push_ordered<M: PlanModel>(
    queue: &mut VecDeque<Step>,
    m: &Method<M>,
    order: &MemberOrder,
    pins: &Vec<(usize, usize)>,
)
    requires
        forall|k: int| 0 <= k < order@.len() ==> (#[trigger] order@[k]) < m.subtasks@.len(),
    ensures
        final(queue)@ == members_in_order(*m, order@, pins@, 0) + old(queue)@,
{
    let n: usize = order.len();
    let ghost base = queue@;
    assert(queue@ =~= members_in_order(*m, order@, pins@, n as nat) + base);
    let mut k: usize = n;
    while k > 0
        invariant
            k <= n,
            n == order@.len(),
            forall|k: int| 0 <= k < order@.len() ==> (#[trigger] order@[k]) < m.subtasks@.len(),
            queue@ == members_in_order(*m, order@, pins@, k as nat) + base,
        decreases k,
    {
        k = k - 1;
        let pos: usize = order.get(k) as usize;
        queue.push_front(Step::Task(m.subtasks[pos] as usize, find_pin(pins, pos)));
        assert(queue@ =~= members_in_order(*m, order@, pins@, k as nat) + base);
    }
}

/// The members of a well-formed method are tasks and pause markers of the
/// domain.
proof fn lemma_total_members_plain<M: PlanModel>(
    d: HtnDomain<M>,
    m: Method<M>,
    pins: Seq<(usize, usize)>,
    pos: nat,
)
    requires
        m.wf(d.tasks@.len(), d.slots()),
    ensures
        plain_queue(d, members_from(m, pins, pos)),
    decreases m.subtasks@.len() - pos,
{
    if pos < m.subtasks@.len() {
        lemma_total_members_plain(d, m, pins, pos + 1);
    }
}

proof fn lemma_ordered_members_plain<M: PlanModel>(
    d: HtnDomain<M>,
    m: Method<M>,
    order: Seq<u8>,
    pins: Seq<(usize, usize)>,
    k: nat,
)
    requires
        m.wf(d.tasks@.len(), d.slots()),
        forall|i: int| 0 <= i < order.len() ==> (#[trigger] order[i]) < m.subtasks@.len(),
    ensures
        plain_queue(d, members_in_order(m, order, pins, k)),
    decreases order.len() - k,
{
    if k < order.len() {
        lemma_ordered_members_plain(d, m, order, pins, k + 1);
    }
}

/// Every enumerated order of a partially-ordered method runs its members.
proof fn lemma_order_positions<M: PlanModel>(m: Method<M>, lin: int)
    requires
        m.order_wf(),
        m.order is Partial,
        0 <= lin < topo_orders(m.order->preds@).len(),
    ensures
        forall|i: int|
            0 <= i < topo_orders(m.order->preds@)[lin].len() ==> (#[trigger] topo_orders(
                m.order->preds@,
            )[lin][i]) < m.subtasks@.len(),
{
    let preds = m.order->preds@;
    let order = topo_orders(preds)[lin];
    orders_are_the_topological_orders(preds, order);
}

proof fn lemma_plain_concat<M: PlanModel>(d: HtnDomain<M>, a: Seq<Step>, b: Seq<Step>)
    requires
        plain_queue(d, a),
        plain_queue(d, b),
    ensures
        plain_queue(d, a + b),
        search_queue(d, a + b),
{
    assert forall|i: int| 0 <= i < (a + b).len() implies step_ok(d, #[trigger] (a + b)[i]) && !((a
        + b)[i] is Linearize) by {
        if i < a.len() {
            assert((a + b)[i] == a[i]);
        } else {
            assert((a + b)[i] == b[i - a.len()]);
        }
    }
    lemma_plain_is_search(d, a + b);
}

proof fn lemma_plain_is_search<M: PlanModel>(d: HtnDomain<M>, queue: Seq<Step>)
    requires
        plain_queue(d, queue),
    ensures
        search_queue(d, queue),
{
    if queue.len() > 0 {
        assert(step_ok(d, queue[0]));
        assert forall|i: int| 0 <= i < queue.skip(1).len() implies step_ok(
            d,
            #[trigger] queue.skip(1)[i],
        ) && !(queue.skip(1)[i] is Linearize) by {
            assert(queue.skip(1)[i] == queue[i + 1]);
        }
    }
}

proof fn lemma_method_base_grows<M: PlanModel>(d: HtnDomain<M>, t: nat, n: nat)
    requires
        t < n <= d.tasks@.len(),
        d.tasks@[t as int] is Compound,
    ensures
        method_base(d, t) + d.tasks@[t as int]->Compound_0.methods@.len() <= method_base(d, n),
    decreases n,
{
    if n > t + 1 {
        lemma_method_base_grows(d, t, (n - 1) as nat);
    }
}

/// How a search ended. The plan and the method choices are the search's own.
enum Finish {
    Exhausted,
    Stopped { status: PlanStatus, resume: Option<Vec<ResumeStep>> },
}

impl<'a, M: PlanModel> Search<'a, M> {
    /// The verdict that an end of the search stands for.
    spec fn verdict(&self, finish: Finish) -> Verdict {
        match finish {
            Finish::Exhausted => Verdict::Fail,
            Finish::Stopped { status, resume } => Verdict::Stop(
                Outcome {
                    plan: self.plan@,
                    mtr: self.mtr@,
                    status,
                    resume: match resume {
                        Some(work) => Some(work@),
                        None => None,
                    },
                },
            ),
        }
    }

    /// How a method is swept before it is committed.
    fn tier(&self, m: &Method<M>, flat: usize) -> (tier: SweepTier)
        requires
            self.domain.wf(),
            self.domain.baked(),
            m.wf(self.domain.tasks@.len(), self.domain.slots()),
            self.cfg.lookahead is Adaptive ==> flat < self.sweep_streaks@.len(),
        ensures
            tier == tier_of(
                *self.domain,
                self.cfg,
                *m,
                if self.cfg.lookahead is Adaptive {
                    self.sweep_streaks@[flat as int]
                } else {
                    0
                },
            ),
    {
        if swept_len(m) == 0 {
            return SweepTier::Skip;
        }
        match self.cfg.lookahead {
            LookaheadMode::Always => SweepTier::Full,
            LookaheadMode::Off => SweepTier::Skip,
            LookaheadMode::Adaptive => {
                if m.subtasks.len() == 1 && !m.order.is_partial() {
                    assert(m.subtasks@[0] < self.domain.tasks@.len());
                    if self.domain.summaries[m.subtasks[0] as usize].min_yield != usize::MAX {
                        return SweepTier::Skip;
                    }
                }
                if self.sweep_streaks[flat] >= ADAPTIVE_SWEEP_TRIALS {
                    SweepTier::RefutationOnly
                } else {
                    SweepTier::Full
                }
            },
        }
    }

    /// The look-ahead's answer for a method within a budget: the pins of its
    /// members, or `None` where it is refuted.
    fn foresee(&self, m: &Method<M>, tier: SweepTier, budget: usize) -> (pins: Option<
        Vec<(usize, usize)>,
    >)
        requires
            self.domain.wf(),
            self.domain.baked(),
            self.state@.len() == self.domain.slots(),
            m.wf(self.domain.tasks@.len(), self.domain.slots()),
        ensures
            match pins {
                Some(pins) => foreseen(*self.domain, *m, self.state@, tier, budget as nat) == Some(pins@),
                None => foreseen(*self.domain, *m, self.state@, tier, budget as nat) is None,
            },
    {
        let depth = match tier {
            SweepTier::Skip => {
                let none: Vec<(usize, usize)> = Vec::new();
                assert(none@ =~= Seq::empty());
                return Some(none);
            },
            SweepTier::RefutationOnly => SweepDepth::RefutationOnly,
            SweepTier::Full => SweepDepth::Full,
        };
        let end: usize = swept_len(m);
        match sweep(
            self.domain,
            &self.state,
            &m.subtasks,
            end,
            budget,
            m.order.is_partial(),
            depth,
        ) {
            Lookahead::DeadEnd => None,
            Lookahead::Refine { pins } => {
                match tier {
                    SweepTier::Full => Some(pins),
                    _ => {
                        let none: Vec<(usize, usize)> = Vec::new();
                        assert(none@ =~= Seq::empty());
                        Some(none)
                    },
                }
            },
        }
    }

    /// Records which branches of a task the ranking left out.
    fn note_rejected(&mut self, t: usize, ranked: &Vec<u32>)
        requires
            old(self).base_ok(),
            t < old(self).domain.tasks@.len(),
            old(self).domain.tasks@[t as int] is Compound,
        ensures
            final(self).progress() == rejected(
                *old(self).domain,
                old(self).cfg,
                t as nat,
                ranked@,
                old(self).domain.tasks@[t as int]->Compound_0.methods@.len(),
                old(self).progress(),
            ),
            final(self).domain == old(self).domain,
            final(self).cfg == old(self).cfg,
            final(self).queue == old(self).queue,
            final(self).frames == old(self).frames,
            final(self).plan == old(self).plan,
            final(self).mtr == old(self).mtr,
            final(self).g == old(self).g,
            final(self).state == old(self).state,
            final(self).rollback == old(self).rollback,
            final(self).left == old(self).left,
            final(self).method_base == old(self).method_base,
            final(self).sweep_streaks == old(self).sweep_streaks,
            final(self).best == old(self).best,
            final(self).cut == old(self).cut,
    {
        let domain = self.domain;
        assert(domain.tasks@[t as int].wf(domain.tasks@.len(), domain.slots()));
        let n: usize = match &domain.tasks[t] {
            Task::Compound(c) => c.methods.len(),
            _ => 0,
        };
        for k in 0..n
            invariant
                domain == old(self).domain,
                domain.wf(),
                t < domain.tasks@.len(),
                domain.tasks@[t as int] is Compound,
                n == domain.tasks@[t as int]->Compound_0.methods@.len(),
                n <= u32::MAX,
                self.progress() == rejected(
                    *old(self).domain,
                    old(self).cfg,
                    t as nat,
                    ranked@,
                    k as nat,
                    old(self).progress(),
                ),
                self.domain == old(self).domain,
                self.cfg == old(self).cfg,
                self.queue == old(self).queue,
                self.frames == old(self).frames,
                self.plan == old(self).plan,
                self.mtr == old(self).mtr,
                self.g == old(self).g,
                self.state == old(self).state,
                self.rollback == old(self).rollback,
                self.left == old(self).left,
                self.method_base == old(self).method_base,
                self.sweep_streaks == old(self).sweep_streaks,
                self.best == old(self).best,
                self.cut == old(self).cut,
        {
            if !holds_u32(ranked, k as u32) {
                self.note(t, k, TraceOutcome::PrecondFailed);
            }
        }
    }

    /// Records that the branches of a task from `from` up to `to` failed their
    /// preconditions.
    fn note_passed(&mut self, t: usize, pin: Option<u32>, from: usize, to: usize)
        requires
            old(self).base_ok(),
            t < old(self).domain.tasks@.len(),
            old(self).domain.tasks@[t as int] is Compound,
            to <= old(self).domain.tasks@[t as int]->Compound_0.methods@.len(),
            pin is None,
            old(self).domain.tasks@[t as int]->Compound_0.policy is FirstMatch,
        ensures
            final(self).progress() == passed_over(
                *old(self).domain,
                old(self).cfg,
                t as nat,
                pin,
                from as nat,
                to as nat,
                old(self).progress(),
            ),
            final(self).domain == old(self).domain,
            final(self).cfg == old(self).cfg,
            final(self).queue == old(self).queue,
            final(self).frames == old(self).frames,
            final(self).plan == old(self).plan,
            final(self).mtr == old(self).mtr,
            final(self).g == old(self).g,
            final(self).state == old(self).state,
            final(self).rollback == old(self).rollback,
            final(self).left == old(self).left,
            final(self).method_base == old(self).method_base,
            final(self).sweep_streaks == old(self).sweep_streaks,
            final(self).best == old(self).best,
            final(self).cut == old(self).cut,
    {
        let mut k: usize = from;
        while k < to
            invariant
                old(self).base_ok(),
                t < self.domain.tasks@.len(),
                self.domain.tasks@[t as int] is Compound,
                to <= self.domain.tasks@[t as int]->Compound_0.methods@.len(),
                pin is None,
                self.domain.tasks@[t as int]->Compound_0.policy is FirstMatch,
                from <= k,
                from < to ==> k <= to,
                from >= to ==> k == from,
                self.progress() == passed_over(
                    *old(self).domain,
                    old(self).cfg,
                    t as nat,
                    pin,
                    from as nat,
                    k as nat,
                    old(self).progress(),
                ),
                self.domain == old(self).domain,
                self.cfg == old(self).cfg,
                self.queue == old(self).queue,
                self.frames == old(self).frames,
                self.plan == old(self).plan,
                self.mtr == old(self).mtr,
                self.g == old(self).g,
                self.state == old(self).state,
                self.rollback == old(self).rollback,
                self.left == old(self).left,
                self.method_base == old(self).method_base,
                self.sweep_streaks == old(self).sweep_streaks,
                self.best == old(self).best,
                self.cut == old(self).cut,
            decreases to - k,
        {
            self.note(t, k, TraceOutcome::PrecondFailed);
            k = k + 1;
        }
        assert(from >= to ==> k == from);
    }

    /// Picks the branch of a compound task to commit to, from position `from` of
    /// its branches on.
    fn choose_branch(&mut self, t: usize, pin: Option<u32>, from: usize) -> (choice: Option<Choice>)
        requires
            old(self).base_ok(),
            t < old(self).domain.tasks@.len(),
            old(self).domain.tasks@[t as int] is Compound,
        ensures
            ({
                let d = *old(self).domain;
                let cfg = old(self).cfg;
                let c = d.tasks@[t as int]->Compound_0;
                let ranked = ranked_methods(c, old(self).state@, old(self).plan@.len() as u64);
                let p2 = if pin is Some || c.policy is FirstMatch {
                    old(self).progress()
                } else {
                    rejected(d, cfg, t as nat, ranked, c.methods@.len(), old(self).progress())
                };
                let picked = pick(
                    d,
                    cfg,
                    t as nat,
                    old(self).state@,
                    old(self).g,
                    prefix_of(old(self).node()),
                    ranked,
                    pin,
                    from as nat,
                    p2,
                );
                &&& final(self).progress() == picked.1
                &&& match choice {
                    Some(ch) => {
                        &&& picked.0 == Some(
                            Commit {
                                method: ch.method as nat,
                                pins: ch.pins@,
                                resume: ch.resume as nat,
                            },
                        )
                        &&& ch.method < c.methods@.len()
                    },
                    None => picked.0 is None,
                }
            }),
            final(self).base_ok(),
            final(self).domain == old(self).domain,
            final(self).cfg == old(self).cfg,
            final(self).queue == old(self).queue,
            final(self).frames == old(self).frames,
            final(self).plan == old(self).plan,
            final(self).mtr == old(self).mtr,
            final(self).g == old(self).g,
            final(self).state == old(self).state,
            final(self).rollback == old(self).rollback,
            final(self).left == old(self).left,
            final(self).best == old(self).best,
    {
        let domain = self.domain;
        assert(domain.tasks@[t as int].wf(domain.tasks@.len(), domain.slots()));
        let c: &CompoundTask<M> = match &domain.tasks[t] {
            Task::Compound(c) => c,
            _ => {
                return None;
            },
        };
        let first_match = match &c.policy {
            SelectionPolicy::FirstMatch => true,
            _ => false,
        };
        proof {
            assert forall|i: int| 0 <= i < c.methods@.len() implies all_fit(
                (#[trigger] c.methods@[i]).preconditions@,
                self.state@.len(),
            ) by {
                assert(c.methods@[i].wf(domain.tasks@.len(), domain.slots()));
            }
        }
        let ghost order = ranked_methods(*c, self.state@, self.plan@.len() as u64);
        let mut ranked: Vec<u32> = Vec::new();
        if pin.is_none() && !first_match {
            ranked = c.rank_valid_methods(&self.state, self.plan.len() as u64);
            self.note_rejected(t, &ranked);
        }
        proof {
            ranking_keeps_every_valid_branch(*c, self.state@, self.plan@.len() as u64);
            assert forall|i: int| 0 <= i < order.len() implies (#[trigger] order[i])
                < c.methods@.len() by {
                assert(order.contains(order[i]));
            }
        }
        let ghost p2 = self.progress();
        let ghost s = self.state@;
        let ghost here = prefix_of(self.node());
        let mut pos: usize = from;
        loop
            invariant
                self.base_ok(),
                domain == self.domain,
                self.domain == old(self).domain,
                self.cfg == old(self).cfg,
                self.queue == old(self).queue,
                self.frames == old(self).frames,
                self.plan == old(self).plan,
                self.mtr == old(self).mtr,
                self.g == old(self).g,
                self.state == old(self).state,
                self.rollback == old(self).rollback,
                self.left == old(self).left,
                self.best == old(self).best,
                s == self.state@,
                here == prefix_of(self.node()),
                t < domain.tasks@.len(),
                domain.tasks@[t as int] == Task::Compound(*c),
                c.wf(domain.tasks@.len(), domain.slots()),
                c.checks_fit(s.len()),
                first_match == (c.policy is FirstMatch),
                order == ranked_methods(*c, s, self.plan@.len() as u64),
                pin is None && !first_match ==> ranked@ == order,
                forall|i: int| 0 <= i < order.len() ==> (#[trigger] order[i]) < c.methods@.len(),
                order.len() <= c.methods@.len(),
                p2 == (if pin is Some || c.policy is FirstMatch {
                    old(self).progress()
                } else {
                    rejected(
                        *domain,
                        self.cfg,
                        t as nat,
                        order,
                        c.methods@.len(),
                        old(self).progress(),
                    )
                }),
                pick(
                    *domain,
                    self.cfg,
                    t as nat,
                    s,
                    self.g,
                    here,
                    order,
                    pin,
                    from as nat,
                    p2,
                ) == pick(
                    *domain,
                    self.cfg,
                    t as nat,
                    s,
                    self.g,
                    here,
                    order,
                    pin,
                    pos as nat,
                    self.progress(),
                ),
            decreases c.methods@.len() - pos,
        {
            let ghost p = self.progress();
            let offered: Option<usize> = match pin {
                Some(pm) => {
                    if pos <= pm as usize && (pm as usize) < c.methods.len() && evaluate_all(
                        &c.methods[pm as usize].preconditions,
                        &self.state,
                    ) {
                        Some(pm as usize)
                    } else {
                        None
                    }
                },
                None => {
                    if first_match {
                        match c.find_method(&self.state, pos) {
                            Some((_, i)) => Some(i),
                            None => None,
                        }
                    } else if pos < ranked.len() {
                        Some(ranked[pos] as usize)
                    } else {
                        None
                    }
                },
            };
            proof {
                first_valid_is_the_least(*c, s, pos as nat);
            }
            let idx: usize = match offered {
                None => {
                    if pin.is_none() && first_match {
                        self.note_passed(t, pin, pos, c.methods.len());
                    }
                    return None;
                },
                Some(i) => i,
            };
            if pin.is_none() && first_match {
                self.note_passed(t, pin, pos, idx);
            }
            let ghost q = self.progress();
            proof {
                assert(q == passed_over(
                    *domain,
                    self.cfg,
                    t as nat,
                    pin,
                    pos as nat,
                    idx as nat,
                    p,
                ));
                lemma_passed_left(*domain, self.cfg, t as nat, pin, pos as nat, idx as nat, p);
            }
            assert(candidate(*c, s, order, pin, pos as nat) == Some(idx as nat));
            assert(c.methods@[idx as int].wf(domain.tasks@.len(), domain.slots()));
            let m: &Method<M> = &c.methods[idx];
            let next: usize = if pin.is_some() || first_match {
                idx + 1
            } else {
                pos + 1
            };
            assert(next == next_position(*c, pin, pos as nat, idx as nat));
            if self.cfg.cost_bounded && self.beaten(m.min_cost) {
                pos = next;
                continue;
            }
            let adaptive = match self.cfg.lookahead {
                LookaheadMode::Adaptive => true,
                _ => false,
            };
            let flat: usize = if adaptive {
                proof {
                    lemma_method_base_grows(*domain, t as nat, domain.tasks@.len());
                    assert(self.method_base@[t as int] == method_base(*domain, t as nat));
                    assert(method_base(*domain, t as nat) + idx < self.sweep_streaks.len());
                }
                self.method_base[t] + idx
            } else {
                0
            };
            let tier = self.tier(m, flat);
            match self.foresee(m, tier, self.left) {
                None => {
                    if self.cut.is_none() && self.foresee(m, tier, usize::MAX).is_some() {
                        let plan = copy_indices(&self.plan);
                        let mtr = copy_indices(&self.mtr);
                        self.cut = Some(CutPlan { plan, mtr });
                    }
                    if adaptive {
                        self.sweep_streaks.set(flat, 0);
                    }
                    proof {
                        assert(self.progress() == refused(
                            *domain,
                            self.cfg,
                            t as nat,
                            idx as nat,
                            s,
                            here,
                            q,
                        ));
                    }
                    pos = next;
                },
                Some(pins) => {
                    if adaptive {
                        let streak: u32 = self.sweep_streaks[flat];
                        let longer: u32 = if streak == u32::MAX {
                            streak
                        } else {
                            streak + 1
                        };
                        self.sweep_streaks.set(flat, longer);
                    }
                    return Some(Choice { method: idx, pins, resume: next });
                },
            }
        }
    }

    /// Whether a cost bound on top of the accumulated cost rules a branch out.
    fn beaten(&self, bound: u64) -> (b: bool)
        ensures
            self.cfg.cost_bounded ==> b == priced_out(self.cfg, self.progress(), self.g, bound),
    {
        match &self.best {
            Some(b) => add_cost(self.g, bound) >= b.cost,
            None => false,
        }
    }
}

/// How much of a method's member sequence is swept.
fn swept_len<M: PlanModel>(m: &Method<M>) -> (n: usize)
    ensures
        n == sweep_end(*m),
{
    if m.pause_positions.len() > 0 && (m.pause_positions[0] as usize) < m.subtasks.len() {
        m.pause_positions[0] as usize
    } else {
        m.subtasks.len()
    }
}

/// Sum of two costs; what no longer fits counts as infinite.
pub(crate) fn add_cost(a: u64, b: u64) -> (sum: u64)
    ensures
        sum == cost_sum(a, b),
{
    if a >= u64::MAX - b {
        u64::MAX
    } else {
        a + b
    }
}

/// Running a primitive leaves the views of the frames as they were.
proof fn lemma_extended_views<'a, M: PlanModel>(before: Search<'a, M>, after: Search<'a, M>)
    requires
        before.base_ok(),
        after.frames == before.frames,
        before.plan@.len() <= after.plan@.len(),
        after.plan@.take(before.plan@.len() as int) == before.plan@,
        after.mtr@ == before.mtr@,
        before.rollback.view().len() <= after.rollback.view().len(),
        after.rollback.view().take(before.rollback.view().len() as int) == before.rollback.view(),
        rewound(after.state@, after.rollback.view(), before.rollback.view().len())
            == before.state@,
    ensures
        after.frame_views() == before.frame_views(),
{
    assert forall|i: int| 0 <= i < before.frames@.len() implies #[trigger] after.frame_at(i)
        == before.frame_at(i) by {
        let f = before.frames@[i];
        assert(after.plan@.take(f.plan_len as int) =~= after.plan@.take(
            before.plan@.len() as int,
        ).take(f.plan_len as int));
        lemma_rewind_extends(
            before.state@,
            before.rollback.view(),
            after.state@,
            after.rollback.view(),
            f.rollback_len as nat,
        );
    }
    assert(after.frame_views() =~= before.frame_views());
}

impl<'a, M: PlanModel> Search<'a, M> {
    /// Answers a dead end: a fail-fast search ends there, any other goes back to
    /// its last choice. Returns the position to go on from, or how the search
    /// ended.
    fn fail(&mut self) -> (next: Result<usize, Finish>)
        requires
            old(self).base_ok(),
        ensures
            final(self).base_ok(),
            final(self).domain == old(self).domain,
            final(self).cfg == old(self).cfg,
            final(self).left == old(self).left,
            ({
                let target = unwind(
                    *old(self).domain,
                    old(self).cfg,
                    old(self).frame_views(),
                    (dead_end(old(self).cfg, old(self).node()), old(self).progress()),
                );
                match next {
                    Ok(pos) => {
                        &&& final(self).ok()
                        &&& final(self).queue@.len() > 0
                        &&& target == unwind(
                            *old(self).domain,
                            old(self).cfg,
                            final(self).frame_views(),
                            explore(
                                *old(self).domain,
                                old(self).cfg,
                                final(self).node(),
                                pos as nat,
                                final(self).progress(),
                            ),
                        )
                    },
                    Err(finish) => target == (final(self).verdict(finish), final(self).progress()),
                }
            }),
    {
        if self.cfg.fail_fast {
            return Err(Finish::Stopped { status: PlanStatus::Partial, resume: None });
        }
        match self.backtrack() {
            Some(pos) => Ok(pos),
            None => Err(Finish::Exhausted),
        }
    }

    /// Runs a primitive whose preconditions hold: appends it to the plan and
    /// applies its effects to the scratchpad.
    fn run_step(&mut self, t: usize)
        requires
            old(self).base_ok(),
            t < old(self).domain.tasks@.len(),
            old(self).domain.tasks@[t as int] is Primitive,
        ensures
            final(self).base_ok(),
            final(self).domain == old(self).domain,
            final(self).cfg == old(self).cfg,
            final(self).left == old(self).left,
            final(self).queue == old(self).queue,
            final(self).progress() == old(self).progress(),
            final(self).frame_views() == old(self).frame_views(),
            final(self).plan@ == old(self).plan@.push(t),
            final(self).mtr@ == old(self).mtr@,
            final(self).state@ == old(self).domain.tasks@[t as int]->Primitive_0.after(
                old(self).state@,
            ),
            final(self).g == (if old(self).cfg.cost_bounded {
                cost_sum(
                    old(self).g,
                    old(self).domain.tasks@[t as int]->Primitive_0.step_cost(old(self).state@),
                )
            } else {
                old(self).g
            }),
    {
        let domain = self.domain;
        assert(domain.tasks@[t as int].wf(domain.tasks@.len(), domain.slots()));
        let p: &PrimitiveTask<M> = match &domain.tasks[t] {
            Task::Primitive(p) => p,
            _ => {
                return;
            },
        };
        if self.cfg.cost_bounded {
            self.g = add_cost(self.g, p.cost_in(&self.state));
        }
        self.plan.push(t);
        let ghost j0 = self.rollback.view();
        let ghost s0 = self.state@;
        apply_journaled(&p.effects, &mut self.rollback, &mut self.state);
        let ghost j1 = self.rollback.view();
        let ghost s1 = self.state@;
        apply_journaled(&p.expected_effects, &mut self.rollback, &mut self.state);
        proof {
            let j2 = self.rollback.view();
            assert(j1.take(j0.len() as int) =~= j0);
            assert(j2.take(j1.len() as int) =~= j1);
            assert(j2.take(j0.len() as int) =~= j0);
            lemma_rewind_extends(s1, j1, self.state@, j2, j0.len());
            assert(self.plan@.take(old(self).plan@.len() as int) =~= old(self).plan@);
            lemma_extended_views(*old(self), *self);
            assert forall|i: int| 0 <= i < j2.len() implies (#[trigger] j2[i]).0
                < domain.slots() by {
                if i < j0.len() {
                    assert(j2.take(j0.len() as int)[i] == j2[i]);
                } else if i < j1.len() {
                    assert(j2.take(j1.len() as int)[i] == j2[i]);
                    assert(j1[i].0 < domain.slots());
                }
            }
        }
    }

    /// Commits to a branch of the task that was just popped: records it, keeps
    /// the way back, and queues its members.
    fn commit(&mut self, t: usize, pin: Option<u32>, choice: Choice, Ghost(node): Ghost<Node<M::Component>>)
        requires
            old(self).base_ok(),
            plain_queue(*old(self).domain, old(self).queue@),
            t < old(self).domain.tasks@.len(),
            old(self).domain.tasks@[t as int] is Compound,
            choice.method < old(self).domain.tasks@[t as int]->Compound_0.methods@.len(),
            node.queue.len() > 0,
            node.queue.skip(1) == old(self).queue@,
            node.state == old(self).state@,
            node.plan == old(self).plan@,
            node.mtr == old(self).mtr@,
            node.g == old(self).g,
        ensures
            final(self).ok(),
            final(self).domain == old(self).domain,
            final(self).cfg == old(self).cfg,
            final(self).left == old(self).left,
            ({
                let commit = Commit {
                    method: choice.method as nat,
                    pins: choice.pins@,
                    resume: choice.resume as nat,
                };
                &&& final(self).node() == child_of(*old(self).domain, node, t, commit)
                &&& final(self).frame_views() == old(self).frame_views().push(
                    frame_of(*old(self).domain, node, t, pin, commit),
                )
                &&& final(self).progress() == traced(
                    old(self).cfg,
                    old(self).progress(),
                    event(*old(self).domain, t as nat, commit.method, TraceOutcome::Selected),
                )
            }),
    {
        let domain = self.domain;
        let ghost d = *domain;
        assert(d.tasks@[t as int].wf(d.tasks@.len(), d.slots()));
        self.note(t, choice.method, TraceOutcome::Selected);
        let c: &CompoundTask<M> = match &domain.tasks[t] {
            Task::Compound(c) => c,
            _ => {
                return;
            },
        };
        let m: &Method<M> = &c.methods[choice.method];
        assert(m.wf(d.tasks@.len(), d.slots()));
        let mut rest: Vec<Step> = Vec::new();
        for i in 0..self.queue.len()
            invariant
                rest@ == self.queue@.take(i as int),
        {
            rest.push(self.queue[i]);
            assert(self.queue@.take(i + 1) =~= self.queue@.take(i as int).push(
                self.queue@[i as int],
            ));
        }
        assert(rest@ =~= self.queue@);
        let ghost lower = *self;
        let (lin, lin_total): (u32, u32) = match &m.order {
            SubtaskOrder::Total => (0, 0),
            SubtaskOrder::Partial { orders, .. } => (1, *orders),
        };
        let frame = DecompositionFrame {
            task: t,
            plan_len: self.plan.len(),
            method: choice.method,
            resume: choice.resume,
            mtr_len: self.mtr.len(),
            pinned: pin,
            queue: rest,
            rollback_len: self.rollback.len(),
            g: self.g,
            lin,
            lin_total,
        };
        self.frames.push(frame);
        self.mtr.push(choice.method);
        proof {
            assert(self.mtr@.take(lower.mtr@.len() as int) =~= lower.mtr@);
            assert(self.plan@.take(lower.plan@.len() as int) =~= lower.plan@);
            assert forall|i: int| 0 <= i < lower.frames@.len() implies #[trigger] self.frame_at(i)
                == lower.frame_at(i) by {
                assert(self.frames@[i] == lower.frames@[i]);
                assert(self.mtr@.take(lower.frames@[i].mtr_len as int) =~= lower.mtr@.take(
                    lower.frames@[i].mtr_len as int,
                ));
            }
            let commit = Commit {
                method: choice.method as nat,
                pins: choice.pins@,
                resume: choice.resume as nat,
            };
            assert(self.frame_at(lower.frames@.len() as int) == frame_of(d, node, t, pin, commit));
            assert(self.frame_views() =~= lower.frame_views().push(
                frame_of(d, node, t, pin, commit),
            ));
        }
        match &m.order {
            SubtaskOrder::Total => {
                push_total(&mut self.queue, m, &choice.pins);
                proof {
                    lemma_total_members_plain(d, *m, choice.pins@, 0);
                    lemma_plain_concat(d, members_from(*m, choice.pins@, 0), lower.queue@);
                }
            },
            SubtaskOrder::Partial { first, .. } => {
                proof {
                    lemma_order_positions(*m, 0);
                    lemma_ordered_members_plain(d, *m, first@, choice.pins@, 0);
                    lemma_plain_concat(
                        d,
                        members_in_order(*m, first@, choice.pins@, 0),
                        lower.queue@,
                    );
                }
                push_ordered(&mut self.queue, m, first, &choice.pins);
            },
        }
        proof {
            let commit = Commit {
                method: choice.method as nat,
                pins: choice.pins@,
                resume: choice.resume as nat,
            };
            assert(old(self).frame_views() =~= lower.frame_views());
            assert(self.frame_views() =~= lower.frame_views().push(
                frame_of(d, node, t, pin, commit),
            ));
            assert(self.node() == child_of(d, node, t, commit));
        }
    }

    /// Commits a partially-ordered method again, with another order.
    fn recommit(&mut self, task: usize, method: usize, lin: u32)
        requires
            old(self).base_ok(),
            plain_queue(*old(self).domain, old(self).queue@),
            task <= u32::MAX,
            method <= u32::MAX,
            step_ok(
                *old(self).domain,
                (Step::Linearize { task: task as u32, method: method as u32, lin }),
            ),
        ensures
            final(self).ok(),
            final(self).domain == old(self).domain,
            final(self).cfg == old(self).cfg,
            final(self).left == old(self).left,
            final(self).frame_views() == old(self).frame_views(),
            final(self).progress() == traced(
                old(self).cfg,
                old(self).progress(),
                event(*old(self).domain, task as nat, method as nat, TraceOutcome::Selected),
            ),
            final(self).node() == (Node {
                queue: members_at(
                    old(self).domain.tasks@[task as int]->Compound_0.methods@[method as int],
                    lin as nat,
                ) + old(self).queue@,
                mtr: old(self).mtr@.push(method),
                ..old(self).node()
            }),
    {
        let domain = self.domain;
        let ghost d = *domain;
        assert(d.tasks@[task as int].wf(d.tasks@.len(), d.slots()));
        self.note(task, method, TraceOutcome::Selected);
        let c: &CompoundTask<M> = match &domain.tasks[task] {
            Task::Compound(c) => c,
            _ => {
                return;
            },
        };
        let m: &Method<M> = &c.methods[method];
        assert(m.wf(d.tasks@.len(), d.slots()));
        let ghost lower = *self;
        self.mtr.push(method);
        proof {
            assert forall|i: int| 0 <= i < lower.frames@.len() implies #[trigger] self.frame_at(i)
                == lower.frame_at(i) by {
                assert(self.frames@[i] == lower.frames@[i]);
                assert(self.mtr@.take(lower.frames@[i].mtr_len as int) =~= lower.mtr@.take(
                    lower.frames@[i].mtr_len as int,
                ));
            }
            assert(self.frame_views() =~= lower.frame_views());
        }
        match &m.order {
            SubtaskOrder::Partial { preds, .. } => {
                match linearize(preds.as_slice(), lin as usize) {
                    Some(order) => {
                        let pins: Vec<(usize, usize)> = Vec::new();
                        proof {
                            assert(pins@ =~= Seq::empty());
                            lemma_order_positions(*m, lin as int);
                            lemma_ordered_members_plain(d, *m, order@, pins@, 0);
                            lemma_plain_concat(
                                d,
                                members_in_order(*m, order@, pins@, 0),
                                lower.queue@,
                            );
                        }
                        push_ordered(&mut self.queue, m, &order, &pins);
                    },
                    None => {},
                }
            },
            SubtaskOrder::Total => {},
        }
        assert(old(self).frame_views() =~= lower.frame_views());
        assert(self.frame_views() =~= lower.frame_views());
    }

    /// The work that is queued, as it is left behind a pause.
    fn queued_work(&self) -> (work: Vec<ResumeStep>)
        requires
            self.domain.wf(),
            plain_queue(*self.domain, self.queue@),
        ensures
            work@ == work_of(self.queue@),
    {
        let mut work: Vec<ResumeStep> = Vec::new();
        for i in 0..self.queue.len()
            invariant
                work@ =~= work_of(self.queue@).take(i as int),
        {
            let step = match self.queue[i] {
                Step::Task(t, _) => ResumeStep::Task(t as u32),
                _ => ResumeStep::Pause,
            };
            work.push(step);
            assert(work@ =~= work_of(self.queue@).take(i + 1));
        }
        assert(work@ =~= work_of(self.queue@));
        work
    }

    /// Whether a task is queued.
    fn task_queued(&self) -> (b: bool)
        ensures
            b == has_task(self.queue@),
    {
        for i in 0..self.queue.len()
            invariant
                forall|k: int| 0 <= k < i ==> !((#[trigger] self.queue@[k]) is Task),
        {
            match self.queue[i] {
                Step::Task(_, _) => {
                    return true;
                },
                _ => {},
            }
        }
        false
    }

    /// Runs the search to its end.
    fn run(&mut self) -> (finish: Finish)
        requires
            old(self).ok(),
            old(self).frames@.len() == 0,
        ensures
            final(self).base_ok(),
            final(self).domain == old(self).domain,
            final(self).cfg == old(self).cfg,
            (final(self).verdict(finish), final(self).progress()) == explore(
                *old(self).domain,
                old(self).cfg,
                old(self).node(),
                0,
                old(self).progress(),
            ),
    {
        let domain = self.domain;
        let ghost d = *self.domain;
        let ghost cfg = self.cfg;
        let ghost target = explore(d, cfg, self.node(), 0, self.progress());
        let mut pos: usize = 0;
        assert(self.frame_views() =~= Seq::empty());
        loop
            invariant
                self.ok(),
                self.domain == domain,
                self.domain == old(self).domain,
                self.cfg == old(self).cfg,
                d == *self.domain,
                cfg == self.cfg,
                target == explore(
                    *old(self).domain,
                    old(self).cfg,
                    old(self).node(),
                    0,
                    old(self).progress(),
                ),
                target == unwind(
                    d,
                    cfg,
                    self.frame_views(),
                    explore(d, cfg, self.node(), pos as nat, self.progress()),
                ),
            decreases self.left, if self.queue@.len() == 0 {
                1int
            } else {
                0
            },
        {
            let ghost node = self.node();
            let ghost p = self.progress();
            let ghost views = self.frame_views();
            let ghost before = *self;
            let popped = self.queue.pop_front();
            let step = match popped {
                None => {
                    let beats = match &self.best {
                        Some(b) => self.g < b.cost,
                        None => self.g < u64::MAX,
                    };
                    if self.cfg.cost_bounded && beats {
                        let plan = copy_indices(&self.plan);
                        let mtr = copy_indices(&self.mtr);
                        self.best = Some(BestPlan { plan, mtr, cost: self.g });
                        assert(self.frame_views() =~= views);
                        assert(explore(d, cfg, node, pos as nat, p) == (
                            Verdict::Fail,
                            self.progress(),
                        ));
                        match self.backtrack() {
                            Some(next) => {
                                pos = next;
                                continue;
                            },
                            None => {
                                return Finish::Exhausted;
                            },
                        }
                    }
                    return Finish::Stopped { status: PlanStatus::Complete, resume: None };
                },
                Some(step) => step,
            };
            assert(self.queue@ =~= node.queue.skip(1));
            assert(step == node.queue[0]);
            assert(plain_queue(d, self.queue@));
            assert(self.frame_views() =~= views);
            if self.left == 0 {
                return Finish::Stopped { status: PlanStatus::Partial, resume: None };
            }
            self.left = self.left - 1;
            assert(self.frame_views() =~= views);
            let ghost p1 = self.progress();
            assert(p1 == (Progress { left: (p.left - 1) as nat, ..p }));
            match step {
                Step::Pause => {
                    if self.task_queued() {
                        let work = self.queued_work();
                        return Finish::Stopped { status: PlanStatus::Paused, resume: Some(work) };
                    }
                    return Finish::Stopped { status: PlanStatus::Complete, resume: None };
                },
                Step::Linearize { task, method, lin } => {
                    self.recommit(task as usize, method as usize, lin);
                    pos = 0;
                },
                Step::Task(t, pin) => match &domain.tasks[t] {
                    Task::Goal(_) => {
                        return Finish::Stopped { status: PlanStatus::Complete, resume: None };
                    },
                    Task::Primitive(prim) => {
                        assert(d.tasks@[t as int].wf(d.tasks@.len(), d.slots()));
                        let blocked = if !prim.preconditions_met(&self.state) {
                            true
                        } else if self.cfg.cost_bounded {
                            self.beaten(prim.cost_in(&self.state))
                        } else {
                            false
                        };
                        if blocked {
                            match self.fail() {
                                Ok(next) => {
                                    pos = next;
                                },
                                Err(finish) => {
                                    return finish;
                                },
                            }
                        } else {
                            self.run_step(t);
                            pos = 0;
                            proof {
                                lemma_plain_is_search(d, self.queue@);
                                assert(self.node() == run_primitive(d, cfg, node, t));
                            }
                        }
                    },
                    Task::Compound(_) => {
                        match self.choose_branch(t, pin, pos) {
                            None => {
                                assert(self.frame_views() =~= views);
                                match self.fail() {
                                    Ok(next) => {
                                        pos = next;
                                    },
                                    Err(finish) => {
                                        return finish;
                                    },
                                }
                            },
                            Some(choice) => {
                                assert(self.frame_views() =~= views);
                                let ghost commit = Commit {
                                    method: choice.method as nat,
                                    pins: choice.pins@,
                                    resume: choice.resume as nat,
                                };
                                self.commit(t, pin, choice, Ghost(node));
                                pos = 0;
                                proof {
                                    let r = explore(d, cfg, self.node(), 0, self.progress());
                                    lemma_explore_left(d, cfg, self.node(), 0, self.progress());
                                    lemma_unwind_push(
                                        d,
                                        cfg,
                                        views,
                                        frame_of(d, node, t, pin, commit),
                                        r,
                                    );
                                }
                            },
                        }
                    },
                },
            }
        }
    }
}

/// What a planning call starts from.
#[derive(Debug, Clone, Copy)]
pub enum PlanRoot {
    /// The task function with this identity; its name travels along for error
    /// messages.
    Fn(u64, Ustr),
    /// The task at this index.
    Index(usize),
}

impl From<usize> for PlanRoot {
    fn from(idx: usize) -> PlanRoot {
        PlanRoot::Index(idx)
    }
}

impl vstd::std_specs::convert::FromSpecImpl<usize> for PlanRoot {
    open spec fn obeys_from_spec() -> bool {
        true
    }

    open spec fn from_spec(idx: usize) -> PlanRoot {
        PlanRoot::Index(idx)
    }
}

/// Whether a plan is the compiled form of an outcome.
pub open spec fn compiles<M: PlanModel>(d: HtnDomain<M>, plan: Plan, outcome: Outcome) -> bool {
    &&& plan.steps@ == Seq::new(outcome.plan.len(), |i: int| outcome.plan[i] as u32)
    &&& plan.names@ == Seq::new(
        outcome.plan.len(),
        |i: int| d.tasks@[outcome.plan[i] as int].name_spec(),
    )
    &&& plan.mtr@ == outcome.mtr
    &&& plan.status == outcome.status
    &&& match (plan.resume, outcome.resume) {
        (Some(point), Some(work)) => point.tasks@ == work && point.mtr@ == outcome.mtr,
        (None, None) => true,
        _ => false,
    }
}

/// The outcome that a search answers with: the best complete plan where one was
/// recorded, and what the search stopped with otherwise. An exhausted search that
/// left a branch out for want of budget answers with how far the plan had come
/// there; `None` where nothing was left out.
pub open spec fn answer(r: (Verdict, Progress)) -> Option<Outcome> {
    match (r.1.best, r.0) {
        (Some(b), _) => Some(
            Outcome { plan: b.plan, mtr: b.mtr, status: PlanStatus::Complete, resume: None },
        ),
        (None, Verdict::Stop(outcome)) => Some(outcome),
        (None, Verdict::Fail) => match r.1.cut {
            Some(c) => Some(
                Outcome { plan: c.plan, mtr: c.mtr, status: PlanStatus::Partial, resume: None },
            ),
            None => None,
        },
    }
}

/// The queue that a search starts from.
pub open spec fn start_queue(work: Seq<ResumeStep>) -> Seq<Step> {
    Seq::new(
        work.len(),
        |i: int|
            match work[i] {
                ResumeStep::Task(t) => Step::Task(t as usize, None),
                ResumeStep::Pause => Step::Pause,
            },
    )
}

/// What a search of `work` from state `s` comes to: explored depth first, with
/// the method choices in `mtr` already made, within `limit` steps.
pub open spec fn searched<M: PlanModel>(
    d: HtnDomain<M>,
    cfg: SearchConfig,
    limit: nat,
    work: Seq<ResumeStep>,
    mtr: Seq<usize>,
    s: ModelState<M>,
    trace: Seq<DecompositionTrace>,
) -> (Verdict, Progress) {
    explore(
        d,
        cfg,
        Node { state: s, queue: start_queue(work), plan: Seq::empty(), mtr, g: 0 },
        0,
        Progress {
            left: limit,
            streaks: Seq::new(method_base(d, d.tasks@.len()), |i: int| 0u32),
            best: None,
            cut: None,
            trace,
        },
    )
}

/// Whether `result` is the answer of a search.
pub open spec fn answers<M: PlanModel>(
    d: HtnDomain<M>,
    result: HtnResult<Plan>,
    r: (Verdict, Progress),
) -> bool {
    match result {
        Ok(plan) => answer(r) matches Some(outcome) && compiles(d, plan, outcome),
        Err(e) => e is NoPlan && answer(r) is None,
    }
}

/// A forward planner over a baked domain. Planning changes nothing outside: it
/// works on its own copy of the scratchpad.
pub struct HtnPlanner<'a, M: PlanModel, S: Searcher<M>> {
    domain: &'a HtnDomain<M>,
    lookahead: LookaheadMode,
    sanity_limit: usize,
    strategy: HtnSearchStrategy<S>,
}

/// The result that a custom searcher's answer stands for.
pub fn custom_result(found: Option<Plan>) -> (result: HtnResult<Plan>)
    ensures
        match found {
            Some(plan) => result == Ok::<Plan, HtnError>(plan),
            None => result matches Err(e) && e is NoPlan,
        },
{
    match found {
        Some(plan) => Ok(plan),
        None => Err(HtnError::NoPlan),
    }
}

/// Compiles a plan of task indices into the step program.
pub(crate) fn materialize<M: PlanModel>(
    domain: &HtnDomain<M>,
    plan: &Vec<usize>,
    mtr: Vec<usize>,
    status: PlanStatus,
    resume: Option<Vec<ResumeStep>>,
) -> (compiled: Plan)
    requires
        plan_ok(*domain, plan@),
        domain.wf(),
    ensures
        compiles(
            *domain,
            compiled,
            (Outcome {
                plan: plan@,
                mtr: mtr@,
                status,
                resume: match resume {
                    Some(work) => Some(work@),
                    None => None,
                },
            }),
        ),
{
    let mut steps: Vec<u32> = Vec::new();
    let mut names: Vec<Ustr> = Vec::new();
    for i in 0..plan.len()
        invariant
            plan_ok(*domain, plan@),
            steps@ == Seq::new(i as nat, |k: int| plan@[k] as u32),
            names@ == Seq::new(i as nat, |k: int| domain.tasks@[plan@[k] as int].name_spec()),
    {
        steps.push(plan[i] as u32);
        names.push(domain.tasks[plan[i]].name());
        assert(steps@ =~= Seq::new((i + 1) as nat, |k: int| plan@[k] as u32));
        assert(names@ =~= Seq::new(
            (i + 1) as nat,
            |k: int| domain.tasks@[plan@[k] as int].name_spec(),
        ));
    }
    let resume = match resume {
        Some(tasks) => {
            let point = ResumePoint { tasks, mtr: copy_indices(&mtr) };
            Some(point)
        },
        None => None,
    };
    Plan { steps, names, mtr, status, resume }
}

impl<'a, M: PlanModel, S: Searcher<M>> HtnPlanner<'a, M, S> {
    /// The domain this planner reads.
    pub closed spec fn network(&self) -> HtnDomain<M> {
        *self.domain
    }

    /// The look-ahead mode.
    pub closed spec fn mode(&self) -> LookaheadMode {
        self.lookahead
    }

    /// The step budget.
    pub closed spec fn limit(&self) -> usize {
        self.sanity_limit
    }

    /// The search strategy.
    pub closed spec fn search_strategy(&self) -> HtnSearchStrategy<S> {
        self.strategy
    }

    /// What the planner's built-in search is told to do.
    pub open spec fn config(&self, tracing: bool) -> SearchConfig {
        SearchConfig {
            lookahead: self.mode(),
            fail_fast: self.search_strategy() is DepthFirstFailFast,
            cost_bounded: self.search_strategy() is CostBounded,
            tracing,
        }
    }

    /// Creates a planner bound to a domain: adaptive look-ahead, a budget of 100
    /// steps, depth-first search.
    pub fn new(domain: &'a HtnDomain<M>) -> (planner: HtnPlanner<'a, M, S>)
        ensures
            planner.network() == *domain,
            planner.mode() is Adaptive,
            planner.limit() == 100,
            planner.search_strategy() is DepthFirst,
    {
        HtnPlanner {
            domain,
            lookahead: LookaheadMode::Adaptive,
            sanity_limit: 100,
            strategy: HtnSearchStrategy::DepthFirst,
        }
    }

    /// The domain this planner reads.
    pub fn domain(&self) -> (d: &'a HtnDomain<M>)
        ensures
            *d == self.network(),
    {
        self.domain
    }

    /// Enables or disables look-ahead pruning.
    pub fn set_lookahead(&mut self, enabled: bool) -> (r: &mut HtnPlanner<'a, M, S>)
        ensures
            (*r).mode() == (if enabled {
                LookaheadMode::Always
            } else {
                LookaheadMode::Off
            }),
            (*r).network() == old(self).network(),
            (*r).limit() == old(self).limit(),
            (*r).search_strategy() == old(self).search_strategy(),
            *final(self) == *final(r),
    {
        self.lookahead = if enabled {
            LookaheadMode::Always
        } else {
            LookaheadMode::Off
        };
        self
    }

    /// Sets the look-ahead mode.
    pub fn set_lookahead_mode(&mut self, mode: LookaheadMode) -> (r: &mut HtnPlanner<'a, M, S>)
        ensures
            (*r).mode() == mode,
            (*r).network() == old(self).network(),
            (*r).limit() == old(self).limit(),
            (*r).search_strategy() == old(self).search_strategy(),
            *final(self) == *final(r),
    {
        self.lookahead = mode;
        self
    }

    /// Sets the step budget after which the partial plan is returned.
    pub fn set_sanity_limit(&mut self, limit: usize) -> (r: &mut HtnPlanner<'a, M, S>)
        ensures
            (*r).limit() == limit,
            (*r).mode() == old(self).mode(),
            (*r).network() == old(self).network(),
            (*r).search_strategy() == old(self).search_strategy(),
            *final(self) == *final(r),
    {
        self.sanity_limit = limit;
        self
    }

    /// Sets the search strategy.
    pub fn set_strategy(&mut self, strategy: HtnSearchStrategy<S>) -> (r: &mut HtnPlanner<'a, M, S>)
        ensures
            (*r).search_strategy() == strategy,
            (*r).limit() == old(self).limit(),
            (*r).mode() == old(self).mode(),
            (*r).network() == old(self).network(),
            *final(self) == *final(r),
    {
        self.strategy = strategy;
        self
    }

    /// Whether `result` is what the planner answers for `work` from state `s`:
    /// what the custom searcher found, or the answer of the built-in search.
    pub open spec fn plans(
        &self,
        work: Seq<ResumeStep>,
        mtr: Seq<usize>,
        s: ModelState<M>,
        result: HtnResult<Plan>,
    ) -> bool {
        match self.search_strategy() {
            HtnSearchStrategy::Custom(searcher) => exists|found: Option<Plan>| #[trigger]
                searcher.may_return(self.network(), s, found) && match found {
                    Some(plan) => result == Ok::<Plan, HtnError>(plan),
                    None => result matches Err(e) && e is NoPlan,
                },
            _ => answers(
                self.network(),
                result,
                searched(
                    self.network(),
                    self.config(false),
                    self.limit() as nat,
                    work,
                    mtr,
                    s,
                    Seq::empty(),
                ),
            ),
        }
    }

    /// The search itself, with the decisions it makes appended to `trace` where
    /// `tracing` is set.
    fn plan_inner(
        &self,
        work: &Vec<ResumeStep>,
        mtr: Vec<usize>,
        state: &PlanState<M::Component>,
        tracing: bool,
        trace: &mut Vec<DecompositionTrace>,
    ) -> (result: HtnResult<Plan>)
        requires
            self.network().wf(),
            self.network().baked(),
            state@.len() == self.network().slots(),
            work_ok(self.network(), work@),
        ensures
            self.search_strategy() is Custom ==> final(trace)@ == old(trace)@ && self.plans(
                work@,
                mtr@,
                state@,
                result,
            ),
            !(self.search_strategy() is Custom) ==> ({
                let r = searched(
                    self.network(),
                    self.config(tracing),
                    self.limit() as nat,
                    work@,
                    mtr@,
                    state@,
                    old(trace)@,
                );
                answers(self.network(), result, r) && final(trace)@ == r.1.trace
            }),
    {
        let (fail_fast, cost_bounded) = match &self.strategy {
            HtnSearchStrategy::Custom(searcher) => {
                let found = searcher.search(self.domain, state);
                assert(searcher.may_return(*self.domain, state@, found));
                return custom_result(found);
            },
            HtnSearchStrategy::DepthFirst => (false, false),
            HtnSearchStrategy::DepthFirstFailFast => (true, false),
            HtnSearchStrategy::CostBounded => (false, true),
        };
        let cfg = SearchConfig { lookahead: self.lookahead, fail_fast, cost_bounded, tracing };
        let n: usize = self.domain.tasks.len();
        let mut bases: Vec<usize> = Vec::new();
        let mut sweep_streaks: Vec<u32> = Vec::new();
        for t in 0..n
            invariant
                n == self.domain.tasks@.len(),
                bases@.len() == t,
                sweep_streaks@.len() == method_base(*self.domain, t as nat),
                forall|i: int| 0 <= i < sweep_streaks@.len() ==> sweep_streaks@[i] == 0,
                forall|i: int|
                    0 <= i < t ==> (#[trigger] bases@[i]) == method_base(
                        *self.domain,
                        i as nat,
                    ),
        {
            bases.push(sweep_streaks.len());
            match &self.domain.tasks[t] {
                Task::Compound(c) => {
                    let ghost before = sweep_streaks@.len();
                    for k in 0..c.methods.len()
                        invariant
                            sweep_streaks@.len() == before + k,
                            forall|i: int|
                                0 <= i < sweep_streaks@.len() ==> sweep_streaks@[i] == 0,
                    {
                        sweep_streaks.push(0);
                    }
                },
                _ => {},
            }
        }
        let mut queue: VecDeque<Step> = VecDeque::new();
        for i in 0..work.len()
            invariant
                queue@ =~= start_queue(work@).take(i as int),
        {
            let step = match work[i] {
                ResumeStep::Task(t) => Step::Task(t as usize, None),
                ResumeStep::Pause => Step::Pause,
            };
            queue.push_back(step);
            assert(queue@ =~= start_queue(work@).take(i + 1));
        }
        assert(queue@ =~= start_queue(work@));
        let mut decisions: Vec<DecompositionTrace> = Vec::new();
        decisions.append(trace);
        assert(decisions@ =~= old(trace)@);
        let mut search = Search {
            domain: self.domain,
            cfg,
            queue,
            frames: Vec::new(),
            plan: Vec::new(),
            mtr,
            g: 0,
            state: state.duplicate(),
            rollback: Rollback::new(),
            left: self.sanity_limit,
            method_base: bases,
            sweep_streaks,
            best: None,
            cut: None,
            trace: decisions,
        };
        proof {
            lemma_plain_is_search(*self.domain, search.queue@);
            assert(search.plan@ =~= Seq::empty());
            assert(search.sweep_streaks@ =~= Seq::new(
                method_base(*self.domain, n as nat),
                |i: int| 0u32,
            ));
        }
        let finish = search.run();
        let ghost reached = search.progress();
        trace.append(&mut search.trace);
        assert(trace@ =~= reached.trace);
        match search.best {
            Some(best) => {
                return Ok(
                    materialize(
                        self.domain,
                        &best.plan,
                        best.mtr,
                        PlanStatus::Complete,
                        None,
                    ),
                );
            },
            None => {},
        }
        match finish {
            Finish::Exhausted => match search.cut {
                Some(cut) => Ok(
                    materialize(self.domain, &cut.plan, cut.mtr, PlanStatus::Partial, None),
                ),
                None => Err(HtnError::NoPlan),
            },
            Finish::Stopped { status, resume } => Ok(
                materialize(self.domain, &search.plan, search.mtr, status, resume),
            ),
        }
    }

    /// Resolves a plan root to a task index.
    fn resolve_root(&self, root: PlanRoot) -> (index: HtnResult<usize>)
        ensures
            match index {
                Ok(i) => root_index(self.network(), root) == Some(i) && i
                    < self.network().tasks@.len(),
                Err(e) => root_index(self.network(), root) is None && (e
                    matches HtnError::UnregisteredTask { name } && name@ == root_name(root)),
            },
    {
        match root {
            PlanRoot::Fn(key, name) => {
                match self.domain.task_index_by_type(key) {
                    Some(i) => Ok(i),
                    None => Err(HtnError::UnregisteredTask { name: name_text(name).to_owned() }),
                }
            },
            PlanRoot::Index(i) => {
                if i < self.domain.tasks.len() {
                    Ok(i)
                } else {
                    Err(HtnError::UnregisteredTask { name: index_name(i) })
                }
            },
        }
    }

    /// Decomposes `root` into a [`Plan`]. `state` is only read.
    ///
    /// An unregistered root is an error, and so is an exhausted search; a search
    /// that runs out of budget, or that leaves out a branch for want of it and
    /// finds no other, returns a partial plan.
    pub fn plan(&self, root: PlanRoot, state: &PlanState<M::Component>) -> (result: HtnResult<Plan>)
        requires
            self.network().wf(),
            self.network().baked(),
            state@.len() == self.network().slots(),
        ensures
            match root_index(self.network(), root) {
                Some(i) => self.plans(
                    seq![ResumeStep::Task(i as u32)],
                    Seq::empty(),
                    state@,
                    result,
                ),
                None => result matches Err(HtnError::UnregisteredTask { name }) && name@
                    == root_name(root),
            },
    {
        let index: usize = match self.resolve_root(root) {
            Ok(i) => i,
            Err(e) => {
                return Err(e);
            },
        };
        let mut work: Vec<ResumeStep> = Vec::new();
        work.push(ResumeStep::Task(index as u32));
        let mtr: Vec<usize> = Vec::new();
        let mut trace: Vec<DecompositionTrace> = Vec::new();
        assert(work@ =~= seq![ResumeStep::Task(index as u32)]);
        assert(mtr@ =~= Seq::empty());
        assert(trace@ =~= Seq::empty());
        self.plan_inner(&work, mtr, state, false, &mut trace)
    }

    /// Decomposes `root` into a [`Plan`], appending one event per
    /// branch-selection decision to `trace`. A custom searcher emits none.
    pub fn plan_traced(
        &self,
        root: PlanRoot,
        state: &PlanState<M::Component>,
        trace: &mut Vec<DecompositionTrace>,
    ) -> (result: HtnResult<Plan>)
        requires
            self.network().wf(),
            self.network().baked(),
            state@.len() == self.network().slots(),
        ensures
            match root_index(self.network(), root) {
                Some(i) => {
                    let work = seq![ResumeStep::Task(i as u32)];
                    let r = searched(
                        self.network(),
                        self.config(true),
                        self.limit() as nat,
                        work,
                        Seq::empty(),
                        state@,
                        old(trace)@,
                    );
                    if self.search_strategy() is Custom {
                        final(trace)@ == old(trace)@ && self.plans(
                            work,
                            Seq::empty(),
                            state@,
                            result,
                        )
                    } else {
                        answers(self.network(), result, r) && final(trace)@ == r.1.trace
                    }
                },
                None => (result matches Err(HtnError::UnregisteredTask { name }) && name@
                    == root_name(root)) && final(trace)@ == old(trace)@,
            },
    {
        let index: usize = match self.resolve_root(root) {
            Ok(i) => i,
            Err(e) => {
                return Err(e);
            },
        };
        let mut work: Vec<ResumeStep> = Vec::new();
        work.push(ResumeStep::Task(index as u32));
        let mtr: Vec<usize> = Vec::new();
        assert(work@ =~= seq![ResumeStep::Task(index as u32)]);
        assert(mtr@ =~= Seq::empty());
        self.plan_inner(&work, mtr, state, true, trace)
    }

    /// Resumes a decomposition that a pause marker truncated: decomposes the
    /// work that `point` still queues against `state`, the state the world is in
    /// now. The executed prefix is never decomposed again.
    pub fn resume(&self, point: &ResumePoint, state: &PlanState<M::Component>) -> (result: HtnResult<
        Plan,
    >)
        requires
            self.network().wf(),
            self.network().baked(),
            state@.len() == self.network().slots(),
        ensures
            match first_unknown(self.network(), point.tasks@, 0) {
                None => self.plans(point.tasks@, point.mtr@, state@, result),
                Some(t) => result matches Err(HtnError::UnregisteredTask { name }) && name@
                    == root_name(PlanRoot::Index(t)),
            },
    {
        for i in 0..point.tasks.len()
            invariant
                first_unknown(self.network(), point.tasks@, 0) == first_unknown(
                    self.network(),
                    point.tasks@,
                    i as nat,
                ),
                forall|k: int|
                    0 <= k < i ==> ((#[trigger] point.tasks@[k]) matches ResumeStep::Task(t) ==> t
                        < self.network().tasks@.len()),
        {
            match point.tasks[i] {
                ResumeStep::Task(t) => {
                    if t as usize >= self.domain.tasks.len() {
                        return Err(HtnError::UnregisteredTask { name: index_name(t as usize) });
                    }
                },
                ResumeStep::Pause => {},
            }
        }
        let mut trace: Vec<DecompositionTrace> = Vec::new();
        assert(trace@ =~= Seq::empty());
        self.plan_inner(&point.tasks, copy_indices(&point.mtr), state, false, &mut trace)
    }
}

/// The index of the task that a root stands for, if the domain has it.
pub open spec fn root_index<M: PlanModel>(d: HtnDomain<M>, root: PlanRoot) -> Option<usize> {
    match root {
        PlanRoot::Fn(key, _) => d.index_of_key(key),
        PlanRoot::Index(i) => if i < d.tasks@.len() {
            Some(i)
        } else {
            None
        },
    }
}

/// What an unregistered root is called in an error.
pub open spec fn root_name(root: PlanRoot) -> Seq<char> {
    match root {
        PlanRoot::Fn(_, name) => text_of(name),
        PlanRoot::Index(i) => "<task index "@ + decimal_text(i as nat) + ">"@,
    }
}

/// What a task index that the domain lacks is called in an error.
fn index_name(i: usize) -> (name: String)
    ensures
        name@ == root_name(PlanRoot::Index(i)),
{
    let number = decimal(i);
    join3("<task index ", number.as_str(), ">")
}

/// The first task index from `k` on that the domain lacks.
pub open spec fn first_unknown<M: PlanModel>(
    d: HtnDomain<M>,
    work: Seq<ResumeStep>,
    k: nat,
) -> Option<usize>
    decreases work.len() - k,
{
    if k >= work.len() {
        None
    } else {
        match work[k as int] {
            ResumeStep::Task(t) if t >= d.tasks@.len() => Some(t as usize),
            _ => first_unknown(d, work, k + 1),
        }
    }
}

/// Whether MTR `a` has priority over MTR `b` from position `k` on: lower at the
/// first difference, or a proper prefix.
pub open spec fn mtr_before(a: Seq<usize>, b: Seq<usize>, k: nat) -> bool
    decreases a.len() - k,
{
    if k >= a.len() || k >= b.len() {
        a.len() < b.len()
    } else if a[k as int] == b[k as int] {
        mtr_before(a, b, k + 1)
    } else {
        a[k as int] < b[k as int]
    }
}

impl Plan {
    /// The task names, in execution order.
    pub fn task_names(&self) -> (names: &Vec<Ustr>)
        ensures
            *names == self.names,
    {
        &self.names
    }

    /// Whether the search ran to completion.
    pub fn is_complete(&self) -> (b: bool)
        ensures
            b == (self.status is Complete),
    {
        match self.status {
            PlanStatus::Complete => true,
            _ => false,
        }
    }

    /// Whether the plan is not complete.
    pub fn is_partial(&self) -> (b: bool)
        ensures
            b == !(self.status is Complete),
    {
        !self.is_complete()
    }

    /// Whether the plan was truncated by a pause marker.
    pub fn is_paused(&self) -> (b: bool)
        ensures
            b == (self.status is Paused),
    {
        match self.status {
            PlanStatus::Paused => true,
            _ => false,
        }
    }

    /// The task index of the step at `cursor`.
    pub fn step_task(&self, cursor: usize) -> (task: Option<usize>)
        ensures
            task == (if cursor < self.steps@.len() {
                Some(self.steps@[cursor as int] as usize)
            } else {
                None
            }),
    {
        if cursor < self.steps.len() {
            Some(self.steps[cursor] as usize)
        } else {
            None
        }
    }

    /// The number of steps.
    pub fn len(&self) -> (n: usize)
        ensures
            n == self.steps@.len(),
    {
        self.steps.len()
    }

    /// Whether the program has no steps.
    pub fn is_empty(&self) -> (b: bool)
        ensures
            b == (self.steps@.len() == 0),
    {
        self.steps.len() == 0
    }

    /// The index of the chosen method at each decomposition.
    pub fn mtr(&self) -> (mtr: &Vec<usize>)
        ensures
            *mtr == self.mtr,
    {
        &self.mtr
    }

    /// Whether this plan's method choices have priority over another's.
    pub fn is_preferred_over(&self, other: &Plan) -> (b: bool)
        ensures
            b == mtr_before(self.mtr@, other.mtr@, 0),
    {
        let mut k: usize = 0;
        while k < self.mtr.len() && k < other.mtr.len()
            invariant
                k <= self.mtr@.len(),
                k <= other.mtr@.len(),
                mtr_before(self.mtr@, other.mtr@, 0) == mtr_before(
                    self.mtr@,
                    other.mtr@,
                    k as nat,
                ),
            decreases self.mtr@.len() - k,
        {
            if self.mtr[k] != other.mtr[k] {
                return self.mtr[k] < other.mtr[k];
            }
            k = k + 1;
        }
        self.mtr.len() < other.mtr.len()
    }
}

proof fn lemma_mtr_before_asymmetric(a: Seq<usize>, b: Seq<usize>, k: nat)
    ensures
        mtr_before(a, b, k) ==> !mtr_before(b, a, k),
        !mtr_before(a, b, k) && !mtr_before(b, a, k) && k <= a.len() && k <= b.len() ==> a.len()
            == b.len() && forall|i: int| k <= i < a.len() ==> a[i] == b[i],
    decreases a.len() - k,
{
    if k < a.len() && k < b.len() && a[k as int] == b[k as int] {
        lemma_mtr_before_asymmetric(a, b, k + 1);
    }
}

proof fn lemma_mtr_before_transitive(a: Seq<usize>, b: Seq<usize>, c: Seq<usize>, k: nat)
    requires
        k <= a.len(),
        k <= b.len(),
        k <= c.len(),
        mtr_before(a, b, k),
        mtr_before(b, c, k),
    ensures
        mtr_before(a, c, k),
    decreases a.len() - k,
{
    if k < a.len() && k < b.len() && k < c.len() && a[k as int] == b[k as int] && b[k as int]
        == c[k as int] {
        lemma_mtr_before_transitive(a, b, c, k + 1);
    }
}

/// Plan preference is a strict order on method choices: no plan is preferred
/// over itself, two plans are never preferred over each other, and preference
/// carries over.
pub proof fn preference_is_a_strict_order(a: Seq<usize>, b: Seq<usize>, c: Seq<usize>)
    ensures
        !mtr_before(a, a, 0),
        mtr_before(a, b, 0) ==> !mtr_before(b, a, 0),
        mtr_before(a, b, 0) && mtr_before(b, c, 0) ==> mtr_before(a, c, 0),
        mtr_before(a, b, 0) || mtr_before(b, a, 0) || a == b,
{
    lemma_mtr_before_asymmetric(a, a, 0);
    lemma_mtr_before_asymmetric(a, b, 0);
    if mtr_before(a, b, 0) && mtr_before(b, c, 0) {
        lemma_mtr_before_transitive(a, b, c, 0);
    }
    if !mtr_before(a, b, 0) && !mtr_before(b, a, 0) {
        assert(a =~= b);
    }
}

/// Whether work names what the domain has.
pub open spec fn work_ok<M: PlanModel>(d: HtnDomain<M>, work: Seq<ResumeStep>) -> bool {
    forall|i: int|
        0 <= i < work.len() ==> ((#[trigger] work[i]) matches ResumeStep::Task(t) ==> t
            < d.tasks@.len())
}

/// Records of choices compare as words do: the one that is lower at the first
/// difference has priority, and so has a proper beginning of the other.
pub proof fn records_compare_as_words(a: Seq<usize>, b: Seq<usize>, k: nat)
    requires
        k <= a.len(),
        k <= b.len(),
    ensures
        mtr_before(a, b, k) <==> {
            ||| exists|i: int|
                k <= i < a.len() && i < b.len() && #[trigger] a[i] < b[i] && forall|j: int|
                    k <= j < i ==> #[trigger] a[j] == b[j]
            ||| a.len() < b.len() && forall|j: int| k <= j < a.len() ==> #[trigger] a[j] == b[j]
        },
    decreases a.len() - k,
{
    if k < a.len() && k < b.len() && a[k as int] == b[k as int] {
        records_compare_as_words(a, b, k + 1);
        if mtr_before(a, b, k) {
            if exists|i: int|
                k + 1 <= i < a.len() && i < b.len() && #[trigger] a[i] < b[i] && forall|j: int|
                    k + 1 <= j < i ==> #[trigger] a[j] == b[j] {
                let i = choose|i: int|
                    k + 1 <= i < a.len() && i < b.len() && #[trigger] a[i] < b[i] && forall|j: int|
                        k + 1 <= j < i ==> #[trigger] a[j] == b[j];
                assert forall|j: int| k <= j < i implies #[trigger] a[j] == b[j] by {}
                assert(a[i] < b[i]);
            } else {
                assert forall|j: int| k <= j < a.len() implies #[trigger] a[j] == b[j] by {}
            }
        }
        if exists|i: int|
            k <= i < a.len() && i < b.len() && #[trigger] a[i] < b[i] && forall|j: int|
                k <= j < i ==> #[trigger] a[j] == b[j] {
            let i = choose|i: int|
                k <= i < a.len() && i < b.len() && #[trigger] a[i] < b[i] && forall|j: int|
                    k <= j < i ==> #[trigger] a[j] == b[j];
            assert(i > k);
        }
    } else if k < a.len() && k < b.len() {
        if a[k as int] > b[k as int] {
            assert forall|i: int|
                k <= i < a.len() && i < b.len() && #[trigger] a[i] < b[i] implies exists|j: int|
                k <= j < i && #[trigger] a[j] != b[j] by {
                assert(a[k as int] != b[k as int]);
            }
        }
    }
}

/// Work is resumed where the domain has every task of it: otherwise the first one
/// that it lacks is reported.
pub proof fn unknown_work_is_reported<M: PlanModel>(
    d: HtnDomain<M>,
    work: Seq<ResumeStep>,
    k: nat,
)
    ensures
        match first_unknown(d, work, k) {
            Some(t) => exists|i: int|
                k <= i < work.len() && #[trigger] work[i] == ResumeStep::Task(t as u32) && t
                    >= d.tasks@.len() && forall|j: int|
                    k <= j < i ==> ((#[trigger] work[j]) matches ResumeStep::Task(u) ==> u
                        < d.tasks@.len()),
            None => forall|j: int|
                k <= j < work.len() ==> ((#[trigger] work[j]) matches ResumeStep::Task(u) ==> u
                    < d.tasks@.len()),
        },
    decreases work.len() - k,
{
    if k < work.len() {
        match work[k as int] {
            ResumeStep::Task(t) if t >= d.tasks@.len() => {
                assert(work[k as int] == ResumeStep::Task((t as usize) as u32));
            },
            _ => {
                unknown_work_is_reported(d, work, k + 1);
            },
        }
    }
}

} // verus!
