//! The forward search, stated as a recursive exploration of search nodes.
//!
//! A node is a point of the search: the scratchpad state, the queue of work
//! still to decompose, and the plan compiled so far. Exploring a node pops the
//! front of its queue and either stops with a result or fails; a failure is
//! handed back to the most recent decomposition, which offers its next choice.

use crate::domain::{CompoundTask, HtnDomain, Method, Task};
use crate::lookahead::{swept, SweepDepth};
use crate::model::{ModelState, PlanModel};
use crate::order::{topo_orders, SubtaskOrder};
use crate::planner::{PlanStatus, ResumeStep};
use crate::ranking::ranked_methods;
use crate::selection::{DecompositionTrace, LookaheadMode, TraceOutcome};
use crate::state::StateView;
use vstd::prelude::*;

verus! {

/// How many consecutive non-refuting sweeps a method tolerates under
/// [`LookaheadMode::Adaptive`] before it is swept for refutation only.
pub const ADAPTIVE_SWEEP_TRIALS: u32 = 2;

/// One entry of the search's task queue.
#[derive(Clone, Copy, Debug, PartialEq, Eq, Structural)]
pub enum Step {
    /// A task occurrence, with the method it is pinned to, if any.
    Task(usize, Option<u32>),
    /// Commits the partially-ordered `method` of compound `task` again, with
    /// its topological order at index `lin`.
    Linearize {
        /// The compound task.
        task: u32,
        /// The method to commit.
        method: u32,
        /// The index of the order to run its members in.
        lin: u32,
    },
    /// A pause marker.
    Pause,
}

/// What a search is told to do.
#[derive(Clone, Copy, Debug)]
pub struct SearchConfig {
    /// When the look-ahead sweep runs.
    pub lookahead: LookaheadMode,
    /// Whether the first failure ends the search.
    pub fail_fast: bool,
    /// Whether the cheapest complete plan is looked for.
    pub cost_bounded: bool,
    /// Whether branch decisions are recorded.
    pub tracing: bool,
}

/// How a method is swept before it is committed.
#[derive(Clone, Copy, Debug, PartialEq, Eq, Structural)]
pub enum SweepTier {
    /// Full analysis.
    Full,
    /// Refutation only.
    RefutationOnly,
    /// Not at all.
    Skip,
}

/// A point of the search.
pub struct Node<C> {
    /// The scratchpad state.
    pub state: StateView<C>,
    /// The work still to decompose, front first.
    pub queue: Seq<Step>,
    /// The primitive tasks of the plan so far.
    pub plan: Seq<usize>,
    /// The method choices so far.
    pub mtr: Seq<usize>,
    /// The accumulated cost of the plan so far.
    pub g: u64,
}

/// The best complete plan found so far.
pub struct Incumbent {
    /// Its primitive tasks.
    pub plan: Seq<usize>,
    /// Its method choices.
    pub mtr: Seq<usize>,
    /// Its cost.
    pub cost: u64,
}

/// How far a plan had come: the front part of a plan.
pub struct Prefix {
    /// Its primitive tasks.
    pub plan: Seq<usize>,
    /// Its method choices.
    pub mtr: Seq<usize>,
}

/// What a search carries along whatever node it is at.
pub struct Progress {
    /// The steps left in the budget.
    pub left: nat,
    /// Per method, the number of sweeps in a row that refuted nothing.
    pub streaks: Seq<u32>,
    /// The best complete plan found so far.
    pub best: Option<Incumbent>,
    /// How far the plan had come when a branch was first left out for want of
    /// budget alone.
    pub cut: Option<Prefix>,
    /// The branch decisions recorded so far.
    pub trace: Seq<DecompositionTrace>,
}

/// A result that ends a search.
pub struct Outcome {
    /// The primitive tasks of the plan.
    pub plan: Seq<usize>,
    /// The method choices of the plan.
    pub mtr: Seq<usize>,
    /// Whether the plan is finished.
    pub status: PlanStatus,
    /// The work left behind a pause.
    pub resume: Option<Seq<ResumeStep>>,
}

/// How the exploration of a node ends.
pub enum Verdict {
    /// No result below the node: the search goes back to its last choice.
    Fail,
    /// The search ends with this result.
    Stop(Outcome),
}

/// A decomposition that the search can come back to: the node as it was before
/// its method was committed, and the choice that was made.
pub struct FrameView<C> {
    /// The compound task.
    pub task: usize,
    /// The method that the occurrence was pinned to, if any.
    pub pinned: Option<u32>,
    /// Where the task's branches are resumed.
    pub resume: nat,
    /// The committed method.
    pub method: usize,
    /// The next linearization to try (0 for a totally-ordered method).
    pub lin: nat,
    /// The number of linearizations to try.
    pub lin_total: nat,
    /// The scratchpad state.
    pub state: StateView<C>,
    /// What was queued behind the task.
    pub queue: Seq<Step>,
    /// The plan so far.
    pub plan: Seq<usize>,
    /// The method choices so far.
    pub mtr: Seq<usize>,
    /// The accumulated cost so far.
    pub g: u64,
}

/// A method to commit to: its index, the pins of its members, and where the
/// task's branches are resumed should it fail.
pub struct Commit {
    /// The method's index.
    pub method: nat,
    /// The pins that its sweep found.
    pub pins: Seq<(usize, usize)>,
    /// Where the branches are resumed.
    pub resume: nat,
}

/// Sum of two costs; what no longer fits counts as infinite.
pub open spec fn cost_sum(a: u64, b: u64) -> u64 {
    if a + b >= u64::MAX {
        u64::MAX
    } else {
        (a + b) as u64
    }
}

/// The method that a member position is pinned to, if any.
pub open spec fn pin_at(pins: Seq<(usize, usize)>, pos: int, k: nat) -> Option<u32>
    decreases pins.len() - k,
{
    if k >= pins.len() {
        None
    } else if pins[k as int].0 == pos {
        Some(pins[k as int].1 as u32)
    } else {
        pin_at(pins, pos, k + 1)
    }
}

/// The queue entries of a totally-ordered method's members from `pos` on, with
/// the pause markers between them.
pub open spec fn members_from<M: PlanModel>(
    m: Method<M>,
    pins: Seq<(usize, usize)>,
    pos: nat,
) -> Seq<Step>
    decreases m.subtasks@.len() - pos,
{
    let pause = if m.pause_positions@.contains(pos as u32) {
        seq![Step::Pause]
    } else {
        Seq::empty()
    };
    if pos >= m.subtasks@.len() {
        pause
    } else {
        pause + seq![
            Step::Task(m.subtasks@[pos as int] as usize, pin_at(pins, pos as int, 0)),
        ] + members_from(m, pins, pos + 1)
    }
}

/// The queue entries of a method's members in the given order, from its `k`-th
/// entry on.
pub open spec fn members_in_order<M: PlanModel>(
    m: Method<M>,
    order: Seq<u8>,
    pins: Seq<(usize, usize)>,
    k: nat,
) -> Seq<Step>
    decreases order.len() - k,
{
    if k >= order.len() {
        Seq::empty()
    } else {
        seq![
            Step::Task(
                m.subtasks@[order[k as int] as int] as usize,
                pin_at(pins, order[k as int] as int, 0),
            ),
        ] + members_in_order(m, order, pins, k + 1)
    }
}

/// The queue entries that committing a method puts in front: a totally-ordered
/// method's members as declared, a partially-ordered one's in its first order.
pub open spec fn members<M: PlanModel>(m: Method<M>, pins: Seq<(usize, usize)>) -> Seq<Step> {
    match m.order {
        SubtaskOrder::Total => members_from(m, pins, 0),
        SubtaskOrder::Partial { preds, orders, first } => members_in_order(m, first@, pins, 0),
    }
}

/// The queue entries of a partially-ordered method's members in its topological
/// order at index `lin`.
pub open spec fn members_at<M: PlanModel>(m: Method<M>, lin: nat) -> Seq<Step> {
    match m.order {
        SubtaskOrder::Total => Seq::empty(),
        SubtaskOrder::Partial { preds, orders, first } => members_in_order(
            m,
            topo_orders(preds@)[lin as int],
            Seq::empty(),
            0,
        ),
    }
}

/// How much of a method's member sequence is swept: all of it, or the part
/// before its first pause marker.
pub open spec fn sweep_end<M: PlanModel>(m: Method<M>) -> nat {
    if m.pause_positions@.len() > 0 && m.pause_positions@[0] < m.subtasks@.len() {
        m.pause_positions@[0] as nat
    } else {
        m.subtasks@.len()
    }
}

/// How a method is swept, given the number of sweeps in a row that refuted
/// nothing.
pub open spec fn tier_of<M: PlanModel>(
    d: HtnDomain<M>,
    cfg: SearchConfig,
    m: Method<M>,
    streak: u32,
) -> SweepTier {
    if sweep_end(m) == 0 {
        SweepTier::Skip
    } else {
        match cfg.lookahead {
            LookaheadMode::Always => SweepTier::Full,
            LookaheadMode::Off => SweepTier::Skip,
            LookaheadMode::Adaptive => {
                if m.subtasks@.len() == 1 && m.order is Total
                    && d.summaries@[m.subtasks@[0] as int].min_yield != usize::MAX {
                    SweepTier::Skip
                } else if streak >= ADAPTIVE_SWEEP_TRIALS {
                    SweepTier::RefutationOnly
                } else {
                    SweepTier::Full
                }
            },
        }
    }
}

/// The pins that the look-ahead finds for a method's members, or `None` where
/// it refutes the method.
pub open spec fn foreseen<M: PlanModel>(
    d: HtnDomain<M>,
    m: Method<M>,
    s: ModelState<M>,
    tier: SweepTier,
    budget: nat,
) -> Option<Seq<(usize, usize)>> {
    let seq = m.subtasks@.take(sweep_end(m) as int);
    match tier {
        SweepTier::Skip => Some(Seq::empty()),
        SweepTier::RefutationOnly => match swept(
            d,
            s,
            seq,
            budget,
            m.order is Partial,
            SweepDepth::RefutationOnly,
        ) {
            Some(_) => Some(Seq::empty()),
            None => None,
        },
        SweepTier::Full => swept(d, s, seq, budget, m.order is Partial, SweepDepth::Full),
    }
}

/// What is known once a method is refused: its streak is over, and where it is
/// refused for want of budget alone, `here` is where the search was first cut
/// short.
pub open spec fn refused<M: PlanModel>(
    d: HtnDomain<M>,
    cfg: SearchConfig,
    t: nat,
    method: nat,
    s: ModelState<M>,
    here: Prefix,
    p: Progress,
) -> Progress {
    let m = d.tasks@[t as int]->Compound_0.methods@[method as int];
    let tier = tier_of(d, cfg, m, streak_of(d, cfg, p, t, method));
    let q = with_streak(d, cfg, p, t, method, 0);
    if p.cut is None && foreseen(d, m, s, tier, usize::MAX as nat) is Some {
        Progress { cut: Some(here), ..q }
    } else {
        q
    }
}

/// The number of methods of the tasks before task `t`.
pub open spec fn method_base<M: PlanModel>(d: HtnDomain<M>, t: nat) -> nat
    decreases t,
{
    if t == 0 {
        0
    } else {
        method_base(d, (t - 1) as nat) + match d.tasks@[t - 1] {
            Task::Compound(c) => c.methods@.len(),
            _ => 0,
        }
    }
}

/// The next branch to offer at position `pos` of a task's branches, if any: the
/// pinned one alone, the next valid one, or the next one of the ranked order.
pub open spec fn candidate<M: PlanModel>(
    c: CompoundTask<M>,
    s: ModelState<M>,
    ranked: Seq<u32>,
    pin: Option<u32>,
    pos: nat,
) -> Option<nat> {
    match pin {
        Some(pm) => if pos <= pm && pm < c.methods@.len() && c.methods@[pm as int].valid(s) {
            Some(pm as nat)
        } else {
            None
        },
        None => if c.policy is FirstMatch {
            c.first_valid(s, pos)
        } else if pos < ranked.len() {
            Some(ranked[pos as int] as nat)
        } else {
            None
        },
    }
}

/// Where a task's branches are resumed behind the branch offered at `pos`.
pub open spec fn next_position<M: PlanModel>(
    c: CompoundTask<M>,
    pin: Option<u32>,
    pos: nat,
    offered: nat,
) -> nat {
    if pin is Some || c.policy is FirstMatch {
        offered + 1
    } else {
        pos + 1
    }
}

/// One past the last position of a task's branches.
pub open spec fn positions<M: PlanModel>(
    c: CompoundTask<M>,
    ranked: Seq<u32>,
    pin: Option<u32>,
) -> nat {
    if pin is Some || c.policy is FirstMatch {
        c.methods@.len()
    } else {
        ranked.len()
    }
}

/// Sets the streak of a method.
pub open spec fn with_streak<M: PlanModel>(
    d: HtnDomain<M>,
    cfg: SearchConfig,
    p: Progress,
    t: nat,
    method: nat,
    streak: u32,
) -> Progress {
    if cfg.lookahead is Adaptive {
        Progress { streaks: p.streaks.update((method_base(d, t) + method) as int, streak), ..p }
    } else {
        p
    }
}

/// The streak of a method; 0 where none is kept.
pub open spec fn streak_of<M: PlanModel>(
    d: HtnDomain<M>,
    cfg: SearchConfig,
    p: Progress,
    t: nat,
    method: nat,
) -> u32 {
    if cfg.lookahead is Adaptive {
        p.streaks[(method_base(d, t) + method) as int]
    } else {
        0
    }
}

/// A streak with one more sweep that refuted nothing.
pub open spec fn longer_streak(streak: u32) -> u32 {
    if streak == u32::MAX {
        streak
    } else {
        (streak + 1) as u32
    }
}

/// Whether a branch whose cost is at least `bound` on top of `g` cannot
/// strictly beat the best complete plan.
pub open spec fn priced_out(cfg: SearchConfig, p: Progress, g: u64, bound: u64) -> bool {
    cfg.cost_bounded && (p.best matches Some(b) && cost_sum(g, bound) >= b.cost)
}

/// Records that the branches from `from` up to `to` failed their preconditions:
/// a task that takes its first valid branch has found each of them invalid.
pub open spec fn passed_over<M: PlanModel>(
    d: HtnDomain<M>,
    cfg: SearchConfig,
    t: nat,
    pin: Option<u32>,
    from: nat,
    to: nat,
    p: Progress,
) -> Progress
    decreases to,
{
    if to <= from || pin is Some || !(d.tasks@[t as int]->Compound_0.policy is FirstMatch) {
        p
    } else {
        traced(
            cfg,
            passed_over(d, cfg, t, pin, from, (to - 1) as nat, p),
            event(d, t, (to - 1) as nat, TraceOutcome::PrecondFailed),
        )
    }
}

/// The first branch at or behind `pos` that neither the cost bound nor the
/// look-ahead rules out. `here` is the plan so far.
pub open spec fn pick<M: PlanModel>(
    d: HtnDomain<M>,
    cfg: SearchConfig,
    t: nat,
    s: ModelState<M>,
    g: u64,
    here: Prefix,
    ranked: Seq<u32>,
    pin: Option<u32>,
    pos: nat,
    p: Progress,
) -> (Option<Commit>, Progress)
    recommends
        d.tasks@[t as int] is Compound,
    decreases positions(d.tasks@[t as int]->Compound_0, ranked, pin) - pos,
{
    let c = d.tasks@[t as int]->Compound_0;
    match candidate(c, s, ranked, pin, pos) {
        None => (None, passed_over(d, cfg, t, pin, pos, c.methods@.len(), p)),
        Some(mi) => {
            let m = c.methods@[mi as int];
            let next = next_position(c, pin, pos, mi);
            let q = passed_over(d, cfg, t, pin, pos, mi, p);
            if priced_out(cfg, p, g, m.min_cost) {
                proof {
                    crate::domain::first_valid_is_the_least(c, s, pos);
                }
                pick(d, cfg, t, s, g, here, ranked, pin, next, q)
            } else {
                let streak = streak_of(d, cfg, p, t, mi);
                match foreseen(d, m, s, tier_of(d, cfg, m, streak), p.left) {
                    None => {
                        proof {
                            crate::domain::first_valid_is_the_least(c, s, pos);
                        }
                        pick(
                            d,
                            cfg,
                            t,
                            s,
                            g,
                            here,
                            ranked,
                            pin,
                            next,
                            refused(d, cfg, t, mi, s, here, q),
                        )
                    },
                    Some(pins) => (
                        Some(Commit { method: mi, pins, resume: next }),
                        with_streak(d, cfg, q, t, mi, longer_streak(streak)),
                    ),
                }
            }
        },
    }
}

/// Records a branch decision.
pub open spec fn traced(cfg: SearchConfig, p: Progress, event: DecompositionTrace) -> Progress {
    if cfg.tracing {
        Progress { trace: p.trace.push(event), ..p }
    } else {
        p
    }
}

/// A branch decision about a method.
pub open spec fn event<M: PlanModel>(
    d: HtnDomain<M>,
    task: nat,
    method: nat,
    outcome: TraceOutcome,
) -> DecompositionTrace {
    DecompositionTrace {
        compound: task as u32,
        branch: method as u32,
        branch_name: d.tasks@[task as int]->Compound_0.methods@[method as int].name,
        outcome,
    }
}

/// Records that those of the first `k` methods that are not in the ranked order
/// failed their preconditions.
pub open spec fn rejected<M: PlanModel>(
    d: HtnDomain<M>,
    cfg: SearchConfig,
    task: nat,
    ranked: Seq<u32>,
    k: nat,
    p: Progress,
) -> Progress
    decreases k,
{
    if k == 0 {
        p
    } else {
        let before = rejected(d, cfg, task, ranked, (k - 1) as nat, p);
        if ranked.contains((k - 1) as u32) {
            before
        } else {
            traced(cfg, before, event(d, task, (k - 1) as nat, TraceOutcome::PrecondFailed))
        }
    }
}

/// The work that a queue entry leaves behind a pause.
pub open spec fn resume_step(step: Step) -> ResumeStep {
    match step {
        Step::Task(t, _) => ResumeStep::Task(t as u32),
        _ => ResumeStep::Pause,
    }
}

/// The work that a queue leaves behind a pause.
pub open spec fn work_of(queue: Seq<Step>) -> Seq<ResumeStep> {
    Seq::new(queue.len(), |i: int| resume_step(queue[i]))
}

/// Whether a queue holds a task.
pub open spec fn has_task(queue: Seq<Step>) -> bool {
    exists|i: int| 0 <= i < queue.len() && (#[trigger] queue[i]) is Task
}

/// The result of a search that stops at `node` with `status`.
pub open spec fn stopped<C>(node: Node<C>, status: PlanStatus) -> Verdict {
    Verdict::Stop(Outcome { plan: node.plan, mtr: node.mtr, status, resume: None })
}

/// How far the plan of a node has come.
pub open spec fn prefix_of<C>(node: Node<C>) -> Prefix {
    Prefix { plan: node.plan, mtr: node.mtr }
}

/// How a dead end is answered: fail-fast searches end there.
pub open spec fn dead_end<C>(cfg: SearchConfig, node: Node<C>) -> Verdict {
    if cfg.fail_fast {
        stopped(node, PlanStatus::Partial)
    } else {
        Verdict::Fail
    }
}

/// The frame that committing a method leaves behind.
pub open spec fn frame_of<M: PlanModel>(
    d: HtnDomain<M>,
    node: Node<M::Component>,
    t: usize,
    pin: Option<u32>,
    commit: Commit,
) -> FrameView<M::Component> {
    let m = d.tasks@[t as int]->Compound_0.methods@[commit.method as int];
    FrameView {
        task: t,
        pinned: pin,
        resume: commit.resume,
        method: commit.method as usize,
        lin: if m.order is Partial {
            1
        } else {
            0
        },
        lin_total: match m.order {
            SubtaskOrder::Partial { preds, orders, first } => orders as nat,
            SubtaskOrder::Total => 0,
        },
        state: node.state,
        queue: node.queue.skip(1),
        plan: node.plan,
        mtr: node.mtr,
        g: node.g,
    }
}

/// The node that committing a method leads to.
pub open spec fn child_of<M: PlanModel>(
    d: HtnDomain<M>,
    node: Node<M::Component>,
    t: usize,
    commit: Commit,
) -> Node<M::Component> {
    let m = d.tasks@[t as int]->Compound_0.methods@[commit.method as int];
    Node {
        queue: members(m, commit.pins) + node.queue.skip(1),
        mtr: node.mtr.push(commit.method as usize),
        ..node
    }
}

/// The node that a frame goes back to, with `step` in front of its queue.
pub open spec fn restored<C>(f: FrameView<C>, step: Step) -> Node<C> {
    Node { state: f.state, queue: seq![step] + f.queue, plan: f.plan, mtr: f.mtr, g: f.g }
}

/// The node that running a primitive leads to.
pub open spec fn run_primitive<M: PlanModel>(
    d: HtnDomain<M>,
    cfg: SearchConfig,
    node: Node<M::Component>,
    t: usize,
) -> Node<M::Component> {
    let prim = d.tasks@[t as int]->Primitive_0;
    Node {
        state: prim.after(node.state),
        queue: node.queue.skip(1),
        plan: node.plan.push(t),
        mtr: node.mtr,
        g: if cfg.cost_bounded {
            cost_sum(node.g, prim.step_cost(node.state))
        } else {
            node.g
        },
    }
}

/// Explores a node. `pos` is where the branches of a compound task at the front
/// are resumed.
pub open spec fn explore<M: PlanModel>(
    d: HtnDomain<M>,
    cfg: SearchConfig,
    node: Node<M::Component>,
    pos: nat,
    p: Progress,
) -> (Verdict, Progress)
    decreases p.left, 0nat,
{
    if node.queue.len() == 0 {
        // The plan is complete. Branch-and-bound records it where it beats the
        // best one so far, and searches on.
        let beats = match p.best {
            Some(b) => node.g < b.cost,
            None => node.g < u64::MAX,
        };
        if cfg.cost_bounded && beats {
            (
                Verdict::Fail,
                Progress {
                    best: Some(Incumbent { plan: node.plan, mtr: node.mtr, cost: node.g }),
                    ..p
                },
            )
        } else {
            (stopped(node, PlanStatus::Complete), p)
        }
    } else if p.left == 0 {
        (stopped(node, PlanStatus::Partial), p)
    } else {
        let p1 = Progress { left: (p.left - 1) as nat, ..p };
        match node.queue[0] {
            Step::Pause => {
                let rest = node.queue.skip(1);
                if has_task(rest) {
                    (
                        Verdict::Stop(
                            Outcome {
                                plan: node.plan,
                                mtr: node.mtr,
                                status: PlanStatus::Paused,
                                resume: Some(work_of(rest)),
                            },
                        ),
                        p1,
                    )
                } else {
                    (stopped(node, PlanStatus::Complete), p1)
                }
            },
            Step::Linearize { task, method, lin } => {
                let m = d.tasks@[task as int]->Compound_0.methods@[method as int];
                let p2 = traced(
                    cfg,
                    p1,
                    event(d, task as nat, method as nat, TraceOutcome::Selected),
                );
                explore(
                    d,
                    cfg,
                    Node {
                        queue: members_at(m, lin as nat) + node.queue.skip(1),
                        mtr: node.mtr.push(method as usize),
                        ..node
                    },
                    0,
                    p2,
                )
            },
            Step::Task(t, pin) => match d.tasks@[t as int] {
                Task::Goal(_) => (stopped(node, PlanStatus::Complete), p1),
                Task::Primitive(prim) => {
                    if !prim.ready(node.state) || priced_out(
                        cfg,
                        p,
                        node.g,
                        prim.step_cost(node.state),
                    ) {
                        (dead_end(cfg, node), p1)
                    } else {
                        explore(d, cfg, run_primitive(d, cfg, node, t), 0, p1)
                    }
                },
                Task::Compound(c) => {
                    let ranked = ranked_methods(c, node.state, node.plan.len() as u64);
                    let p2 = if pin is Some || c.policy is FirstMatch {
                        p1
                    } else {
                        rejected(d, cfg, t as nat, ranked, c.methods@.len(), p1)
                    };
                    let (choice, p3) = pick(
                        d,
                        cfg,
                        t as nat,
                        node.state,
                        node.g,
                        prefix_of(node),
                        ranked,
                        pin,
                        pos,
                        p2,
                    );
                    match choice {
                        None => (dead_end(cfg, node), p3),
                        Some(commit) => {
                            let p4 = traced(
                                cfg,
                                p3,
                                event(d, t as nat, commit.method, TraceOutcome::Selected),
                            );
                            // A search never gives budget back, so neither guard
                            // ever fails.
                            if p4.left >= p.left {
                                (Verdict::Fail, p4)
                            } else {
                                let r = explore(d, cfg, child_of(d, node, t, commit), 0, p4);
                                if r.0 is Fail && r.1.left < p.left {
                                    after_failure(d, cfg, frame_of(d, node, t, pin, commit), r.1)
                                } else {
                                    r
                                }
                            }
                        },
                    }
                },
            },
        }
    }
}

/// Goes back to a decomposition whose last choice failed: a partially-ordered
/// method is tried with its next order, an occurrence that is pinned to the
/// failed method fails, and any other task offers its next branch.
pub open spec fn after_failure<M: PlanModel>(
    d: HtnDomain<M>,
    cfg: SearchConfig,
    f: FrameView<M::Component>,
    p: Progress,
) -> (Verdict, Progress)
    decreases p.left, 1nat,
{
    let p1 = traced(
        cfg,
        p,
        event(d, f.task as nat, f.method as nat, TraceOutcome::Backtracked),
    );
    if 0 < f.lin < f.lin_total {
        let step = Step::Linearize { task: f.task as u32, method: f.method as u32, lin: f.lin as u32 };
        let r = explore(d, cfg, restored(f, step), 0, p1);
        // A search never gives budget back, so the guard never fails.
        if r.0 is Fail && r.1.left < p.left {
            after_failure(d, cfg, FrameView { lin: f.lin + 1, ..f }, r.1)
        } else {
            r
        }
    } else if f.pinned is Some {
        (Verdict::Fail, p1)
    } else {
        explore(d, cfg, restored(f, Step::Task(f.task, f.pinned)), f.resume, p1)
    }
}

/// Hands a failure back through the frames, newest first, until one finds a
/// result.
pub open spec fn unwind<M: PlanModel>(
    d: HtnDomain<M>,
    cfg: SearchConfig,
    frames: Seq<FrameView<M::Component>>,
    r: (Verdict, Progress),
) -> (Verdict, Progress)
    decreases frames.len(),
{
    if frames.len() == 0 || r.0 is Stop {
        r
    } else {
        unwind(d, cfg, frames.drop_last(), after_failure(d, cfg, frames.last(), r.1))
    }
}

pub proof fn lemma_rejected_left<M: PlanModel>(
    d: HtnDomain<M>,
    cfg: SearchConfig,
    task: nat,
    ranked: Seq<u32>,
    k: nat,
    p: Progress,
)
    ensures
        rejected(d, cfg, task, ranked, k, p).left == p.left,
        rejected(d, cfg, task, ranked, k, p).best == p.best,
        rejected(d, cfg, task, ranked, k, p).streaks == p.streaks,
        rejected(d, cfg, task, ranked, k, p).cut == p.cut,
    decreases k,
{
    if k > 0 {
        lemma_rejected_left(d, cfg, task, ranked, (k - 1) as nat, p);
    }
}

pub proof fn lemma_passed_left<M: PlanModel>(
    d: HtnDomain<M>,
    cfg: SearchConfig,
    t: nat,
    pin: Option<u32>,
    from: nat,
    to: nat,
    p: Progress,
)
    ensures
        passed_over(d, cfg, t, pin, from, to, p).left == p.left,
        passed_over(d, cfg, t, pin, from, to, p).best == p.best,
        passed_over(d, cfg, t, pin, from, to, p).streaks == p.streaks,
        passed_over(d, cfg, t, pin, from, to, p).cut == p.cut,
    decreases to,
{
    if to > from && pin is None && d.tasks@[t as int]->Compound_0.policy is FirstMatch {
        lemma_passed_left(d, cfg, t, pin, from, (to - 1) as nat, p);
    }
}

pub proof fn lemma_pick_left<M: PlanModel>(
    d: HtnDomain<M>,
    cfg: SearchConfig,
    t: nat,
    s: ModelState<M>,
    g: u64,
    here: Prefix,
    ranked: Seq<u32>,
    pin: Option<u32>,
    pos: nat,
    p: Progress,
)
    ensures
        pick(d, cfg, t, s, g, here, ranked, pin, pos, p).1.left == p.left,
        pick(d, cfg, t, s, g, here, ranked, pin, pos, p).1.best == p.best,
        pick(d, cfg, t, s, g, here, ranked, pin, pos, p).1.cut == p.cut || (p.cut is None && pick(
            d,
            cfg,
            t,
            s,
            g,
            here,
            ranked,
            pin,
            pos,
            p,
        ).1.cut == Some(here)),
    decreases positions(d.tasks@[t as int]->Compound_0, ranked, pin) - pos,
{
    let c = d.tasks@[t as int]->Compound_0;
    match candidate(c, s, ranked, pin, pos) {
        None => {
            lemma_passed_left(d, cfg, t, pin, pos, c.methods@.len(), p);
        },
        Some(mi) => {
            crate::domain::first_valid_is_the_least(c, s, pos);
            let m = c.methods@[mi as int];
            let next = next_position(c, pin, pos, mi);
            let q = passed_over(d, cfg, t, pin, pos, mi, p);
            lemma_passed_left(d, cfg, t, pin, pos, mi, p);
            if priced_out(cfg, p, g, m.min_cost) {
                lemma_pick_left(d, cfg, t, s, g, here, ranked, pin, next, q);
            } else {
                let streak = streak_of(d, cfg, p, t, mi);
                if foreseen(d, m, s, tier_of(d, cfg, m, streak), p.left) is None {
                    lemma_pick_left(
                        d,
                        cfg,
                        t,
                        s,
                        g,
                        here,
                        ranked,
                        pin,
                        next,
                        refused(d, cfg, t, mi, s, here, q),
                    );
                }
            }
        },
    }
}

/// Exploring a node uses up budget: whatever is popped is paid for.
pub proof fn lemma_explore_left<M: PlanModel>(
    d: HtnDomain<M>,
    cfg: SearchConfig,
    node: Node<M::Component>,
    pos: nat,
    p: Progress,
)
    ensures
        explore(d, cfg, node, pos, p).1.left <= p.left,
        node.queue.len() > 0 && p.left > 0 ==> explore(d, cfg, node, pos, p).1.left < p.left,
        node.queue.len() > 0 && explore(d, cfg, node, pos, p).0 is Fail ==> explore(
            d,
            cfg,
            node,
            pos,
            p,
        ).1.left < p.left,
    decreases p.left, 0nat,
{
    if node.queue.len() > 0 && p.left > 0 {
        let p1 = Progress { left: (p.left - 1) as nat, ..p };
        match node.queue[0] {
            Step::Pause => {},
            Step::Linearize { task, method, lin } => {
                let m = d.tasks@[task as int]->Compound_0.methods@[method as int];
                let p2 = traced(
                    cfg,
                    p1,
                    event(d, task as nat, method as nat, TraceOutcome::Selected),
                );
                lemma_explore_left(
                    d,
                    cfg,
                    Node {
                        queue: members_at(m, lin as nat) + node.queue.skip(1),
                        mtr: node.mtr.push(method as usize),
                        ..node
                    },
                    0,
                    p2,
                );
            },
            Step::Task(t, pin) => match d.tasks@[t as int] {
                Task::Goal(_) => {},
                Task::Primitive(prim) => {
                    lemma_explore_left(d, cfg, run_primitive(d, cfg, node, t), 0, p1);
                },
                Task::Compound(c) => {
                    let ranked = ranked_methods(c, node.state, node.plan.len() as u64);
                    let p2 = if pin is Some || c.policy is FirstMatch {
                        p1
                    } else {
                        rejected(d, cfg, t as nat, ranked, c.methods@.len(), p1)
                    };
                    lemma_rejected_left(d, cfg, t as nat, ranked, c.methods@.len(), p1);
                    lemma_pick_left(d, cfg, t as nat, node.state, node.g, prefix_of(node), ranked, pin, pos, p2);
                    let (choice, p3) = pick(
                        d,
                        cfg,
                        t as nat,
                        node.state,
                        node.g,
                        prefix_of(node),
                        ranked,
                        pin,
                        pos,
                        p2,
                    );
                    match choice {
                        None => {},
                        Some(commit) => {
                            let p4 = traced(
                                cfg,
                                p3,
                                event(d, t as nat, commit.method, TraceOutcome::Selected),
                            );
                            lemma_explore_left(d, cfg, child_of(d, node, t, commit), 0, p4);
                            let r = explore(d, cfg, child_of(d, node, t, commit), 0, p4);
                            if r.0 is Fail {
                                lemma_after_failure_left(
                                    d,
                                    cfg,
                                    frame_of(d, node, t, pin, commit),
                                    r.1,
                                );
                            }
                        },
                    }
                },
            },
        }
    }
}

pub proof fn lemma_after_failure_left<M: PlanModel>(
    d: HtnDomain<M>,
    cfg: SearchConfig,
    f: FrameView<M::Component>,
    p: Progress,
)
    ensures
        after_failure(d, cfg, f, p).1.left <= p.left,
    decreases p.left, 1nat,
{
    let p1 = traced(
        cfg,
        p,
        event(d, f.task as nat, f.method as nat, TraceOutcome::Backtracked),
    );
    if 0 < f.lin < f.lin_total {
        let step = Step::Linearize { task: f.task as u32, method: f.method as u32, lin: f.lin as u32 };
        lemma_explore_left(d, cfg, restored(f, step), 0, p1);
        let r = explore(d, cfg, restored(f, step), 0, p1);
        if r.0 is Fail {
            lemma_after_failure_left(d, cfg, FrameView { lin: f.lin + 1, ..f }, r.1);
        }
    } else if f.pinned is None {
        lemma_explore_left(d, cfg, restored(f, Step::Task(f.task, f.pinned)), f.resume, p1);
    }
}

/// Costs add up whatever the order, nothing costs nothing, and a sum is exact as
/// long as it fits; what no longer fits counts as infinite, and stays so.
pub proof fn costs_add_up(a: u64, b: u64, c: u64)
    ensures
        cost_sum(a, 0) == a,
        cost_sum(a, b) == cost_sum(b, a),
        cost_sum(cost_sum(a, b), c) == cost_sum(a, cost_sum(b, c)),
        a + b <= u64::MAX ==> cost_sum(a, b) == a + b,
        a + b > u64::MAX ==> cost_sum(a, b) == u64::MAX,
        b <= c ==> cost_sum(a, b) <= cost_sum(a, c),
{
}

/// The pin of a member position is that of the first entry for the position, and
/// there is none only where no entry is for it.
pub proof fn pins_are_found_by_position(pins: Seq<(usize, usize)>, pos: int, k: nat)
    requires
        forall|i: int| 0 <= i < pins.len() ==> (#[trigger] pins[i]).1 <= u32::MAX,
    ensures
        match pin_at(pins, pos, k) {
            Some(m) => exists|i: int|
                k <= i < pins.len() && #[trigger] pins[i] == (pins[i].0, m as usize) && pins[i].0
                    == pos && forall|j: int| k <= j < i ==> (#[trigger] pins[j]).0 != pos,
            None => forall|j: int| k <= j < pins.len() ==> (#[trigger] pins[j]).0 != pos,
        },
    decreases pins.len() - k,
{
    if k < pins.len() {
        if pins[k as int].0 == pos {
            assert(pins[k as int] == (pins[k as int].0, pin_at(pins, pos, k)->Some_0 as usize));
        } else {
            pins_are_found_by_position(pins, pos, k + 1);
        }
    }
}

/// How many of the first `n` queue entries are tasks.
pub open spec fn tasks_among(queue: Seq<Step>, n: nat) -> nat
    decreases n,
{
    if n == 0 {
        0
    } else {
        tasks_among(queue, (n - 1) as nat) + if queue[n - 1] is Task {
            1nat
        } else {
            0nat
        }
    }
}

proof fn lemma_tasks_among(front: Seq<Step>, back: Seq<Step>, n: nat)
    requires
        n <= front.len() + back.len(),
    ensures
        n <= front.len() ==> tasks_among(front + back, n) == tasks_among(front, n),
        n >= front.len() ==> tasks_among(front + back, n) == tasks_among(front, front.len())
            + tasks_among(back, (n - front.len()) as nat),
    decreases n,
{
    if n > 0 {
        lemma_tasks_among(front, back, (n - 1) as nat);
    }
}

/// The entry at a place of the queue of a totally-ordered method's members: a task
/// is the member that the tasks before it leave, with its pin, and a pause stands
/// where that member, or the end, is declared to pause.
spec fn queued_right<M: PlanModel>(
    m: Method<M>,
    pins: Seq<(usize, usize)>,
    step: Step,
    at: nat,
) -> bool {
    match step {
        Step::Task(t, pin) => at < m.subtasks@.len() && t == m.subtasks@[at as int] && pin == pin_at(
            pins,
            at as int,
            0,
        ),
        Step::Pause => m.pause_positions@.contains(at as u32),
        Step::Linearize { .. } => false,
    }
}

proof fn lemma_members_front<M: PlanModel>(
    m: Method<M>,
    pins: Seq<(usize, usize)>,
    pos: nat,
) -> (front: Seq<Step>)
    requires
        pos < m.subtasks@.len(),
    ensures
        members_from(m, pins, pos) == front + members_from(m, pins, pos + 1),
        tasks_among(front, front.len()) == 1,
        forall|i: int|
            0 <= i < front.len() ==> tasks_among(front, i as nat) == 0 && queued_right(
                m,
                pins,
                #[trigger] front[i],
                pos,
            ),
        m.pause_positions@.contains(pos as u32) ==> front.len() > 0 && front[0] is Pause,
{
    let pause = if m.pause_positions@.contains(pos as u32) {
        seq![Step::Pause]
    } else {
        Seq::empty()
    };
    let task = Step::Task(m.subtasks@[pos as int] as usize, pin_at(pins, pos as int, 0));
    let front = pause + seq![task];
    assert(members_from(m, pins, pos) =~= front + members_from(m, pins, pos + 1));
    reveal_with_fuel(tasks_among, 3);
    front
}

proof fn lemma_members_right<M: PlanModel>(
    m: Method<M>,
    pins: Seq<(usize, usize)>,
    pos: nat,
    i: int,
)
    requires
        pos <= m.subtasks@.len(),
        0 <= i < members_from(m, pins, pos).len(),
    ensures
        queued_right(
            m,
            pins,
            members_from(m, pins, pos)[i],
            pos + tasks_among(members_from(m, pins, pos), i as nat),
        ),
    decreases m.subtasks@.len() - pos,
{
    let queue = members_from(m, pins, pos);
    if pos < m.subtasks@.len() {
        let front = lemma_members_front(m, pins, pos);
        let rest = members_from(m, pins, pos + 1);
        lemma_tasks_among(front, rest, i as nat);
        if i < front.len() {
            assert(queue[i] == front[i]);
        } else {
            lemma_members_right(m, pins, pos + 1, i - front.len());
            assert(queue[i] == rest[i - front.len()]);
        }
    } else {
        assert(queue[i] is Pause);
        assert(i == 0);
        assert(tasks_among(queue, 0) == 0);
    }
}

proof fn lemma_members_count<M: PlanModel>(m: Method<M>, pins: Seq<(usize, usize)>, pos: nat)
    requires
        pos <= m.subtasks@.len(),
    ensures
        pos + tasks_among(members_from(m, pins, pos), members_from(m, pins, pos).len())
            == m.subtasks@.len(),
    decreases m.subtasks@.len() - pos,
{
    let queue = members_from(m, pins, pos);
    if pos < m.subtasks@.len() {
        let front = lemma_members_front(m, pins, pos);
        let rest = members_from(m, pins, pos + 1);
        lemma_tasks_among(front, rest, queue.len());
        lemma_members_count(m, pins, pos + 1);
    } else {
        reveal_with_fuel(tasks_among, 2);
    }
}

proof fn lemma_pause_at<M: PlanModel>(
    m: Method<M>,
    pins: Seq<(usize, usize)>,
    pos: nat,
    at: u32,
) -> (i: int)
    requires
        pos <= at <= m.subtasks@.len(),
        m.pause_positions@.contains(at),
    ensures
        0 <= i < members_from(m, pins, pos).len(),
        members_from(m, pins, pos)[i] is Pause,
        pos + tasks_among(members_from(m, pins, pos), i as nat) == at,
    decreases m.subtasks@.len() - pos,
{
    let queue = members_from(m, pins, pos);
    if pos == at {
        if pos < m.subtasks@.len() {
            let front = lemma_members_front(m, pins, pos);
            assert(queue[0] == front[0]);
        }
        assert(tasks_among(queue, 0) == 0);
        0
    } else {
        let front = lemma_members_front(m, pins, pos);
        let rest = members_from(m, pins, pos + 1);
        let i = lemma_pause_at(m, pins, pos + 1, at);
        let k = front.len() + i;
        lemma_tasks_among(front, rest, k as nat);
        assert(queue[k] == rest[i]);
        k
    }
}

/// The members of a totally-ordered method are queued as declared: every member
/// once, in order, with a pause before each position that is declared to pause,
/// behind the last member too, and nowhere else.
pub proof fn members_are_queued_as_declared<M: PlanModel>(
    m: Method<M>,
    pins: Seq<(usize, usize)>,
    pos: nat,
)
    requires
        pos <= m.subtasks@.len(),
    ensures
        ({
            let queue = members_from(m, pins, pos);
            &&& pos + tasks_among(queue, queue.len()) == m.subtasks@.len()
            &&& forall|i: int|
                0 <= i < queue.len() ==> {
                    let at = pos + tasks_among(queue, i as nat);
                    match #[trigger] queue[i] {
                        Step::Task(t, pin) => at < m.subtasks@.len() && t == m.subtasks@[at as int]
                            && pin == pin_at(pins, at as int, 0),
                        Step::Pause => m.pause_positions@.contains(at as u32),
                        Step::Linearize { .. } => false,
                    }
                }
            &&& forall|at: u32|
                pos <= at <= m.subtasks@.len() && #[trigger] m.pause_positions@.contains(at)
                    ==> exists|i: int|
                    0 <= i < queue.len() && (#[trigger] queue[i]) is Pause && pos + tasks_among(
                        queue,
                        i as nat,
                    ) == at
        }),
{
    let queue = members_from(m, pins, pos);
    lemma_members_count(m, pins, pos);
    assert forall|i: int| 0 <= i < queue.len() implies {
        let at = pos + tasks_among(queue, i as nat);
        match #[trigger] queue[i] {
            Step::Task(t, pin) => at < m.subtasks@.len() && t == m.subtasks@[at as int] && pin
                == pin_at(pins, at as int, 0),
            Step::Pause => m.pause_positions@.contains(at as u32),
            Step::Linearize { .. } => false,
        }
    } by {
        lemma_members_right(m, pins, pos, i);
    }
    assert forall|at: u32|
        pos <= at <= m.subtasks@.len() && #[trigger] m.pause_positions@.contains(
            at,
        ) implies exists|i: int|
        0 <= i < queue.len() && (#[trigger] queue[i]) is Pause && pos + tasks_among(
            queue,
            i as nat,
        ) == at by {
        let i = lemma_pause_at(m, pins, pos, at);
    }
}

/// The members of a method in a given order are queued in that order, without
/// pauses.
pub proof fn members_are_queued_in_order<M: PlanModel>(
    m: Method<M>,
    order: Seq<u8>,
    pins: Seq<(usize, usize)>,
    k: nat,
)
    requires
        k <= order.len(),
    ensures
        members_in_order(m, order, pins, k).len() == order.len() - k,
        forall|i: int|
            k <= i < order.len() ==> #[trigger] members_in_order(m, order, pins, k)[i - k]
                == Step::Task(
                m.subtasks@[order[i] as int] as usize,
                pin_at(pins, order[i] as int, 0),
            ),
    decreases order.len() - k,
{
    if k < order.len() {
        members_are_queued_in_order(m, order, pins, k + 1);
        let rest = members_in_order(m, order, pins, k + 1);
        assert forall|i: int| k <= i < order.len() implies #[trigger] members_in_order(
            m,
            order,
            pins,
            k,
        )[i - k] == Step::Task(
            m.subtasks@[order[i] as int] as usize,
            pin_at(pins, order[i] as int, 0),
        ) by {
            if i > k {
                assert(members_in_order(m, order, pins, k)[i - k] == rest[i - (k + 1)]);
            }
        }
    }
}

/// How many choices of a trace stand: those that were made, less those that were
/// taken back.
pub open spec fn standing_choices(trace: Seq<DecompositionTrace>) -> int
    decreases trace.len(),
{
    if trace.len() == 0 {
        0
    } else {
        standing_choices(trace.drop_last()) + match trace.last().outcome {
            TraceOutcome::Selected => 1int,
            TraceOutcome::Backtracked => -1int,
            TraceOutcome::PrecondFailed => 0int,
        }
    }
}

/// Whether two searches have come equally far: they differ in what was traced
/// alone.
pub open spec fn as_far(p: Progress, q: Progress) -> bool {
    p.left == q.left && p.streaks == q.streaks && p.best == q.best && p.cut == q.cut
}

/// Whether a trace only grew from one point of a search to another, by choices of
/// which `n` more stand; without tracing it stays as it is.
pub open spec fn trace_grew(cfg: SearchConfig, p: Progress, q: Progress, n: int) -> bool {
    &&& p.trace.is_prefix_of(q.trace)
    &&& cfg.tracing ==> standing_choices(q.trace) == standing_choices(p.trace) + n
    &&& !cfg.tracing ==> q.trace == p.trace
}

proof fn lemma_event_grows(cfg: SearchConfig, p: Progress, e: DecompositionTrace)
    ensures
        trace_grew(
            cfg,
            p,
            traced(cfg, p, e),
            match e.outcome {
                TraceOutcome::Selected => 1,
                TraceOutcome::Backtracked => -1,
                TraceOutcome::PrecondFailed => 0,
            },
        ),
{
    assert(p.trace.push(e).drop_last() =~= p.trace);
}

/// Of a task that ranks its branches, every branch that is not offered is traced
/// as failing its preconditions, in declaration order, and nothing else is.
pub proof fn unoffered_branches_are_traced<M: PlanModel>(
    d: HtnDomain<M>,
    cfg: SearchConfig,
    task: nat,
    ranked: Seq<u32>,
    k: nat,
    p: Progress,
)
    requires
        cfg.tracing,
    ensures
        ({
            let q = rejected(d, cfg, task, ranked, k, p);
            &&& as_far(p, q)
            &&& trace_grew(cfg, p, q, 0)
            &&& k > 0 ==> {
                let before = rejected(d, cfg, task, ranked, (k - 1) as nat, p);
                if ranked.contains((k - 1) as u32) {
                    q.trace == before.trace
                } else {
                    &&& q.trace.len() == before.trace.len() + 1
                    &&& before.trace.is_prefix_of(q.trace)
                    &&& q.trace.last().outcome is PrecondFailed
                    &&& q.trace.last().compound == task as u32
                    &&& q.trace.last().branch == (k - 1) as u32
                }
            }
        }),
    decreases k,
{
    if k > 0 {
        unoffered_branches_are_traced(d, cfg, task, ranked, (k - 1) as nat, p);
        lemma_event_grows(
            cfg,
            rejected(d, cfg, task, ranked, (k - 1) as nat, p),
            event(d, task, (k - 1) as nat, TraceOutcome::PrecondFailed),
        );
    }
}

/// Of a task that takes its first valid branch, every branch that is passed over
/// is traced as failing its preconditions, one event each, in declaration order.
pub proof fn passed_branches_are_traced<M: PlanModel>(
    d: HtnDomain<M>,
    cfg: SearchConfig,
    t: nat,
    from: nat,
    to: nat,
    p: Progress,
)
    requires
        cfg.tracing,
        from <= to,
        d.tasks@[t as int]->Compound_0.policy is FirstMatch,
    ensures
        ({
            let q = passed_over(d, cfg, t, None, from, to, p);
            &&& as_far(p, q)
            &&& trace_grew(cfg, p, q, 0)
            &&& q.trace.len() == p.trace.len() + (to - from)
            &&& forall|i: int|
                from <= i < to ==> {
                    let e = #[trigger] q.trace[p.trace.len() + (i - from)];
                    e.outcome is PrecondFailed && e.branch == i as u32 && e.compound == t as u32
                }
        }),
    decreases to,
{
    if from < to {
        passed_branches_are_traced(d, cfg, t, from, (to - 1) as nat, p);
        lemma_event_grows(
            cfg,
            passed_over(d, cfg, t, None, from, (to - 1) as nat, p),
            event(d, t, (to - 1) as nat, TraceOutcome::PrecondFailed),
        );
    }
}

proof fn lemma_rejected_alike<M: PlanModel>(
    d: HtnDomain<M>,
    cfg: SearchConfig,
    task: nat,
    ranked: Seq<u32>,
    k: nat,
    p: Progress,
)
    ensures
        as_far(p, rejected(d, cfg, task, ranked, k, p)),
        trace_grew(cfg, p, rejected(d, cfg, task, ranked, k, p), 0),
    decreases k,
{
    if k > 0 {
        lemma_rejected_alike(d, cfg, task, ranked, (k - 1) as nat, p);
        lemma_event_grows(
            cfg,
            rejected(d, cfg, task, ranked, (k - 1) as nat, p),
            event(d, task, (k - 1) as nat, TraceOutcome::PrecondFailed),
        );
    }
}

proof fn lemma_passed_alike<M: PlanModel>(
    d: HtnDomain<M>,
    cfg: SearchConfig,
    t: nat,
    pin: Option<u32>,
    from: nat,
    to: nat,
    p: Progress,
)
    ensures
        as_far(p, passed_over(d, cfg, t, pin, from, to, p)),
        trace_grew(cfg, p, passed_over(d, cfg, t, pin, from, to, p), 0),
    decreases to,
{
    if to > from && pin is None && d.tasks@[t as int]->Compound_0.policy is FirstMatch {
        lemma_passed_alike(d, cfg, t, pin, from, (to - 1) as nat, p);
        lemma_event_grows(
            cfg,
            passed_over(d, cfg, t, pin, from, (to - 1) as nat, p),
            event(d, t, (to - 1) as nat, TraceOutcome::PrecondFailed),
        );
    }
}

/// Whether two configurations differ in nothing but whether decisions are traced.
pub open spec fn but_for_tracing(cfg: SearchConfig, other: SearchConfig) -> bool {
    other == (SearchConfig { tracing: other.tracing, ..cfg })
}

proof fn lemma_pick_alike<M: PlanModel>(
    d: HtnDomain<M>,
    cfg: SearchConfig,
    other: SearchConfig,
    t: nat,
    s: ModelState<M>,
    g: u64,
    here: Prefix,
    ranked: Seq<u32>,
    pin: Option<u32>,
    pos: nat,
    p: Progress,
    q: Progress,
)
    requires
        but_for_tracing(cfg, other),
        as_far(p, q),
    ensures
        ({
            let a = pick(d, cfg, t, s, g, here, ranked, pin, pos, p);
            let b = pick(d, other, t, s, g, here, ranked, pin, pos, q);
            a.0 == b.0 && as_far(a.1, b.1) && trace_grew(cfg, p, a.1, 0) && a.1.left == p.left
        }),
    decreases positions(d.tasks@[t as int]->Compound_0, ranked, pin) - pos,
{
    let c = d.tasks@[t as int]->Compound_0;
    match candidate(c, s, ranked, pin, pos) {
        None => {
            lemma_passed_alike(d, cfg, t, pin, pos, c.methods@.len(), p);
            lemma_passed_alike(d, other, t, pin, pos, c.methods@.len(), q);
        },
        Some(mi) => {
            crate::domain::first_valid_is_the_least(c, s, pos);
            let m = c.methods@[mi as int];
            let next = next_position(c, pin, pos, mi);
            let p1 = passed_over(d, cfg, t, pin, pos, mi, p);
            let q1 = passed_over(d, other, t, pin, pos, mi, q);
            lemma_passed_alike(d, cfg, t, pin, pos, mi, p);
            lemma_passed_alike(d, other, t, pin, pos, mi, q);
            if priced_out(cfg, p, g, m.min_cost) {
                lemma_pick_alike(d, cfg, other, t, s, g, here, ranked, pin, next, p1, q1);
            } else {
                let streak = streak_of(d, cfg, p, t, mi);
                if foreseen(d, m, s, tier_of(d, cfg, m, streak), p.left) is None {
                    let p2 = refused(d, cfg, t, mi, s, here, p1);
                    let q2 = refused(d, other, t, mi, s, here, q1);
                    lemma_pick_alike(d, cfg, other, t, s, g, here, ranked, pin, next, p2, q2);
                }
            }
        },
    }
}

/// Whether no entry of a queue from index `k` on tries another order.
pub open spec fn settled(queue: Seq<Step>, k: int) -> bool {
    forall|i: int| k <= i < queue.len() ==> !((#[trigger] queue[i]) is Linearize)
}

proof fn lemma_total_settled<M: PlanModel>(m: Method<M>, pins: Seq<(usize, usize)>, pos: nat)
    ensures
        settled(members_from(m, pins, pos), 0),
    decreases m.subtasks@.len() - pos,
{
    if pos < m.subtasks@.len() {
        lemma_total_settled(m, pins, pos + 1);
    }
}

proof fn lemma_members_settled<M: PlanModel>(m: Method<M>, pins: Seq<(usize, usize)>, lin: nat)
    ensures
        settled(members(m, pins), 0),
        settled(members_at(m, lin), 0),
{
    match m.order {
        SubtaskOrder::Total => {
            lemma_total_settled(m, pins, 0);
        },
        SubtaskOrder::Partial { preds, orders, first } => {
            lemma_ordered_settled(m, first@, pins, 0);
            lemma_ordered_settled(m, topo_orders(preds@)[lin as int], Seq::empty(), 0);
        },
    }
}

proof fn lemma_ordered_settled<M: PlanModel>(
    m: Method<M>,
    order: Seq<u8>,
    pins: Seq<(usize, usize)>,
    k: nat,
)
    ensures
        settled(members_in_order(m, order, pins, k), 0),
    decreases order.len() - k,
{
    if k < order.len() {
        lemma_ordered_settled(m, order, pins, k + 1);
    }
}

/// Tracing changes no decision, and the trace is the search's own record. A search
/// that traces its decisions comes to the same verdict, equally far, as one that
/// does not. It appends to the trace alone. Where it fails, the choices that were
/// made since were all taken back, but for the one that a queue entry for another
/// order at the front stands for; where it stops, those that stand are as many as
/// the choices of the plan that it stops with.
pub proof fn exploring_traces_its_choices<M: PlanModel>(
    d: HtnDomain<M>,
    cfg: SearchConfig,
    other: SearchConfig,
    node: Node<M::Component>,
    pos: nat,
    p: Progress,
    q: Progress,
)
    requires
        but_for_tracing(cfg, other),
        as_far(p, q),
        settled(node.queue, 1),
    ensures
        ({
            let a = explore(d, cfg, node, pos, p);
            let b = explore(d, other, node, pos, q);
            &&& a.0 == b.0
            &&& as_far(a.1, b.1)
            &&& trace_grew(
                cfg,
                p,
                a.1,
                match a.0 {
                    Verdict::Fail => if node.queue.len() > 0 && node.queue[0] is Linearize {
                        1
                    } else {
                        0
                    },
                    Verdict::Stop(o) => o.mtr.len() - node.mtr.len(),
                },
            )
        }),
    decreases p.left, 1nat,
{
    if node.queue.len() > 0 && p.left > 0 {
        let p1 = Progress { left: (p.left - 1) as nat, ..p };
        let q1 = Progress { left: (q.left - 1) as nat, ..q };
        let rest = node.queue.skip(1);
        assert(settled(rest, 0)) by {
            assert forall|i: int| 0 <= i < rest.len() implies !((#[trigger] rest[i]) is Linearize) by {
                assert(rest[i] == node.queue[i + 1]);
            }
        }
        match node.queue[0] {
            Step::Pause => {},
            Step::Linearize { task, method, lin } => {
                let m = d.tasks@[task as int]->Compound_0.methods@[method as int];
                let e = event(d, task as nat, method as nat, TraceOutcome::Selected);
                lemma_event_grows(cfg, p1, e);
                lemma_members_settled(m, Seq::empty(), lin as nat);
                let child = Node {
                    queue: members_at(m, lin as nat) + rest,
                    mtr: node.mtr.push(method as usize),
                    ..node
                };
                exploring_traces_its_choices(
                    d,
                    cfg,
                    other,
                    child,
                    0,
                    traced(cfg, p1, e),
                    traced(other, q1, e),
                );
            },
            Step::Task(t, pin) => match d.tasks@[t as int] {
                Task::Goal(_) => {},
                Task::Primitive(prim) => {
                    let next = run_primitive(d, cfg, node, t);
                    assert(settled(next.queue, 0));
                    exploring_traces_its_choices(d, cfg, other, next, 0, p1, q1);
                },
                Task::Compound(c) => {
                    lemma_compound_traces(d, cfg, other, node, pos, p, q, t, pin);
                },
            },
        }
    }
}

#[verifier::rlimit(80)]
#[verifier::spinoff_prover]
proof fn lemma_compound_traces<M: PlanModel>(
    d: HtnDomain<M>,
    cfg: SearchConfig,
    other: SearchConfig,
    node: Node<M::Component>,
    pos: nat,
    p: Progress,
    q: Progress,
    t: usize,
    pin: Option<u32>,
)
    requires
        but_for_tracing(cfg, other),
        as_far(p, q),
        node.queue.len() > 0,
        p.left > 0,
        node.queue[0] == Step::Task(t, pin),
        d.tasks@[t as int] is Compound,
        settled(node.queue.skip(1), 0),
    ensures
        ({
            let a = explore(d, cfg, node, pos, p);
            let b = explore(d, other, node, pos, q);
            &&& a.0 == b.0
            &&& as_far(a.1, b.1)
            &&& trace_grew(
                cfg,
                p,
                a.1,
                match a.0 {
                    Verdict::Fail => 0,
                    Verdict::Stop(o) => o.mtr.len() - node.mtr.len(),
                },
            )
        }),
    decreases p.left, 0nat,
{
    let c = d.tasks@[t as int]->Compound_0;
    let p1 = Progress { left: (p.left - 1) as nat, ..p };
    let q1 = Progress { left: (q.left - 1) as nat, ..q };
    let ranked = ranked_methods(c, node.state, node.plan.len() as u64);
    let ranks = !(pin is Some || c.policy is FirstMatch);
    lemma_rejected_alike(d, cfg, t as nat, ranked, c.methods@.len(), p1);
    lemma_rejected_alike(d, other, t as nat, ranked, c.methods@.len(), q1);
    let p2 = if ranks {
        rejected(d, cfg, t as nat, ranked, c.methods@.len(), p1)
    } else {
        p1
    };
    let q2 = if ranks {
        rejected(d, other, t as nat, ranked, c.methods@.len(), q1)
    } else {
        q1
    };
    let here = prefix_of(node);
    lemma_pick_alike(d, cfg, other, t as nat, node.state, node.g, here, ranked, pin, pos, p2, q2);
    let (choice, p3) = pick(d, cfg, t as nat, node.state, node.g, here, ranked, pin, pos, p2);
    let (same, q3) = pick(d, other, t as nat, node.state, node.g, here, ranked, pin, pos, q2);
    assert(trace_grew(cfg, p, p3, 0));
    if choice is None {
        assert(explore(d, cfg, node, pos, p) == (dead_end(cfg, node), p3));
        assert(explore(d, other, node, pos, q) == (dead_end(other, node), q3));
    } else {
        let commit = choice->Some_0;
        let e = event(d, t as nat, commit.method, TraceOutcome::Selected);
        let p4 = traced(cfg, p3, e);
        let q4 = traced(other, q3, e);
        lemma_event_grows(cfg, p3, e);
        let child = child_of(d, node, t, commit);
        lemma_members_settled(c.methods@[commit.method as int], commit.pins, 0);
        assert(settled(child.queue, 0));
        exploring_traces_its_choices(d, cfg, other, child, 0, p4, q4);
        lemma_explore_left(d, cfg, child, 0, p4);
        let r = explore(d, cfg, child, 0, p4);
        let r2 = explore(d, other, child, 0, q4);
        if r.0 is Fail {
            let f = frame_of(d, node, t, pin, commit);
            lemma_after_failure_traces(d, cfg, other, f, r.1, r2.1);
            assert(explore(d, cfg, node, pos, p) == after_failure(d, cfg, f, r.1));
            assert(explore(d, other, node, pos, q) == after_failure(d, other, f, r2.1));
        } else {
            assert(explore(d, cfg, node, pos, p) == r);
            assert(explore(d, other, node, pos, q) == r2);
        }
    }
}

proof fn lemma_after_failure_traces<M: PlanModel>(
    d: HtnDomain<M>,
    cfg: SearchConfig,
    other: SearchConfig,
    f: FrameView<M::Component>,
    p: Progress,
    q: Progress,
)
    requires
        but_for_tracing(cfg, other),
        as_far(p, q),
        settled(f.queue, 0),
    ensures
        ({
            let a = after_failure(d, cfg, f, p);
            let b = after_failure(d, other, f, q);
            &&& a.0 == b.0
            &&& as_far(a.1, b.1)
            &&& trace_grew(
                cfg,
                p,
                a.1,
                match a.0 {
                    Verdict::Fail => -1,
                    Verdict::Stop(o) => o.mtr.len() - f.mtr.len() - 1,
                },
            )
        }),
    decreases p.left, 2nat,
{
    let e = event(d, f.task as nat, f.method as nat, TraceOutcome::Backtracked);
    let p1 = traced(cfg, p, e);
    let q1 = traced(other, q, e);
    lemma_event_grows(cfg, p, e);
    if 0 < f.lin < f.lin_total {
        let step = Step::Linearize { task: f.task as u32, method: f.method as u32, lin: f.lin as u32 };
        let node = restored(f, step);
        lemma_behind_settled(step, f.queue);
        exploring_traces_its_choices(d, cfg, other, node, 0, p1, q1);
        lemma_explore_left(d, cfg, node, 0, p1);
        let r = explore(d, cfg, node, 0, p1);
        let r2 = explore(d, other, node, 0, q1);
        if r.0 is Fail {
            lemma_after_failure_traces(
                d,
                cfg,
                other,
                FrameView { lin: f.lin + 1, ..f },
                r.1,
                r2.1,
            );
        }
    } else if f.pinned is None {
        let step = Step::Task(f.task, f.pinned);
        lemma_behind_settled(step, f.queue);
        exploring_traces_its_choices(d, cfg, other, restored(f, step), f.resume, p1, q1);
    }
}

proof fn lemma_behind_settled(step: Step, queue: Seq<Step>)
    requires
        settled(queue, 0),
    ensures
        settled(seq![step] + queue, 1),
{
    let all = seq![step] + queue;
    assert forall|i: int| 1 <= i < all.len() implies !((#[trigger] all[i]) is Linearize) by {
        assert(all[i] == queue[i - 1]);
    }
}

/// The look-ahead mode decides the sweep: none where it is off, a full one where it
/// is always on. Where it adapts, a sole member that terminates is not swept, and
/// a method that was swept without a refutation as often as the trials ask for is
/// swept for refutation alone.
pub proof fn modes_decide_the_sweep<M: PlanModel>(
    d: HtnDomain<M>,
    cfg: SearchConfig,
    m: Method<M>,
    streak: u32,
)
    requires
        m.subtasks@.len() > 0,
        m.pause_positions@.len() == 0,
    ensures
        cfg.lookahead is Off ==> tier_of(d, cfg, m, streak) is Skip,
        cfg.lookahead is Always ==> tier_of(d, cfg, m, streak) is Full,
        cfg.lookahead is Adaptive && m.subtasks@.len() > 1 ==> {
            &&& streak < ADAPTIVE_SWEEP_TRIALS ==> tier_of(d, cfg, m, streak) is Full
            &&& streak >= ADAPTIVE_SWEEP_TRIALS ==> tier_of(d, cfg, m, streak) is RefutationOnly
        },
        cfg.lookahead is Adaptive && m.subtasks@.len() == 1 && m.order is Total
            && d.summaries@[m.subtasks@[0] as int].min_yield < usize::MAX ==> tier_of(
            d,
            cfg,
            m,
            streak,
        ) is Skip,
        sweep_end(m) == m.subtasks@.len(),
{
}

} // verus!
