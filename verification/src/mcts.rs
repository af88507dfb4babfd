//! Monte Carlo tree search as a pluggable search strategy.
//!
//! A frontier is a point of the search: the scratchpad, the task occurrences
//! still to decompose, the plan so far, and its cost. Advancing a frontier
//! applies forced moves (a primitive at the front, a compound task with exactly
//! one applicable branch) up to the next choice point. The search grows a tree
//! of choice points: it descends to a node by the tree policy, commits one
//! untried branch there, and rolls out depth first, in declaration order, from
//! where that leads. It returns the cheapest complete plan that it came across.
//!
//! Goals are no forward steps and are skipped; pause markers do not apply; a
//! partially-ordered branch runs in its first order.

use crate::domain::{CompoundTask, HtnDomain, Method, Task};
use crate::model::{ModelState, PlanModel};
use crate::order::SubtaskOrder;
use crate::planner::{add_cost, compiles, materialize, plan_ok, Plan, PlanStatus};
use crate::ranking::{lemma_valid_methods, valid_below, valid_methods};
use crate::search::{cost_sum, Outcome};
use crate::selection::Searcher;
use crate::soundness::{executable, lemma_plan_prefix, plan_cost, plan_state};
use crate::state::{copy_indices, PlanState, StateView};
use vstd::prelude::*;

verus! {

/// A point of the search.
pub struct FrontierView<C> {
    /// The scratchpad state.
    pub state: StateView<C>,
    /// The task occurrences still to decompose, the next one last.
    pub stack: Seq<usize>,
    /// The primitive tasks of the plan so far.
    pub plan: Seq<usize>,
    /// The accumulated cost of the plan so far.
    pub g: u64,
}

/// One move from a frontier.
pub enum Turn {
    /// Runs the primitive at the front.
    Run,
    /// Replaces the compound task at the front by the members of this method.
    Choose(nat),
    /// Skips the goal at the front.
    Skip,
}

impl<M: PlanModel> Method<M> {
    /// The members in the order in which they run first: as declared, or in the
    /// first order of a partially-ordered method.
    pub open spec fn run_order(&self) -> Seq<usize> {
        match self.order {
            SubtaskOrder::Total => Seq::new(
                self.subtasks@.len(),
                |i: int| self.subtasks@[i] as usize,
            ),
            SubtaskOrder::Partial { preds, orders, first } => Seq::new(
                first@.len(),
                |i: int| self.subtasks@[first@[i] as int] as usize,
            ),
        }
    }
}

/// The stack after a method's members are put in front.
pub open spec fn with_members<M: PlanModel>(stack: Seq<usize>, m: Method<M>) -> Seq<usize> {
    stack + m.run_order().reverse()
}

/// What one move does, where it applies.
pub open spec fn turn<M: PlanModel>(
    d: HtnDomain<M>,
    f: FrontierView<M::Component>,
    t: Turn,
) -> Option<FrontierView<M::Component>> {
    if f.stack.len() == 0 {
        None
    } else {
        let front = f.stack.last();
        let rest = f.stack.drop_last();
        match (d.tasks@[front as int], t) {
            (Task::Primitive(p), Turn::Run) => if p.ready(f.state) {
                Some(
                    FrontierView {
                        state: p.after(f.state),
                        stack: rest,
                        plan: f.plan.push(front),
                        g: cost_sum(f.g, p.step_cost(f.state)),
                    },
                )
            } else {
                None
            },
            (Task::Compound(c), Turn::Choose(m)) => if m < c.methods@.len()
                && c.methods@[m as int].valid(f.state) {
                Some(FrontierView { stack: with_members(rest, c.methods@[m as int]), ..f })
            } else {
                None
            },
            (Task::Goal(_), Turn::Skip) => Some(FrontierView { stack: rest, ..f }),
            _ => None,
        }
    }
}

/// Where moves lead, where every one applies.
pub open spec fn turns<M: PlanModel>(
    d: HtnDomain<M>,
    f: FrontierView<M::Component>,
    ts: Seq<Turn>,
) -> Option<FrontierView<M::Component>>
    decreases ts.len(),
{
    if ts.len() == 0 {
        Some(f)
    } else {
        match turns(d, f, ts.drop_last()) {
            Some(mid) => turn(d, mid, ts.last()),
            None => None,
        }
    }
}

/// Whether some moves lead from one frontier to another.
pub open spec fn leads<M: PlanModel>(
    d: HtnDomain<M>,
    a: FrontierView<M::Component>,
    b: FrontierView<M::Component>,
) -> bool {
    exists|ts: Seq<Turn>| #[trigger] turns(d, a, ts) == Some(b)
}

/// The frontier at the root of a domain.
pub open spec fn root_frontier<M: PlanModel>(
    d: HtnDomain<M>,
    s: ModelState<M>,
) -> FrontierView<M::Component> {
    FrontierView { state: s, stack: seq![d.root], plan: Seq::empty(), g: 0 }
}

/// Where advancing a frontier's forced moves stops.
pub enum StopView<C> {
    /// Nothing is left to decompose.
    Complete(FrontierView<C>),
    /// A primitive's preconditions fail, or no branch applies.
    Failed,
    /// The step budget ran out.
    Aborted,
    /// A compound task with two or more applicable branches.
    Choice(FrontierView<C>, usize),
}

/// Where advancing a frontier's forced moves stops, and the budget left.
pub open spec fn advanced<M: PlanModel>(
    d: HtnDomain<M>,
    f: FrontierView<M::Component>,
    fuel: nat,
) -> (StopView<M::Component>, nat)
    decreases fuel, f.stack.len(),
{
    if f.stack.len() == 0 {
        (StopView::Complete(f), fuel)
    } else {
        let front = f.stack.last();
        let rest = f.stack.drop_last();
        match d.tasks@[front as int] {
            Task::Primitive(p) => if !p.ready(f.state) {
                (StopView::Failed, fuel)
            } else if fuel == 0 {
                (StopView::Aborted, fuel)
            } else {
                advanced(
                    d,
                    FrontierView {
                        state: p.after(f.state),
                        stack: rest,
                        plan: f.plan.push(front),
                        g: cost_sum(f.g, p.step_cost(f.state)),
                    },
                    (fuel - 1) as nat,
                )
            },
            Task::Compound(c) => {
                let valid = valid_methods(c, f.state);
                if valid.len() == 0 {
                    (StopView::Failed, fuel)
                } else if valid.len() > 1 {
                    (StopView::Choice(FrontierView { stack: rest, ..f }, front), fuel)
                } else if fuel == 0 {
                    (StopView::Aborted, fuel)
                } else {
                    advanced(
                        d,
                        FrontierView {
                            stack: with_members(rest, c.methods@[valid[0] as int]),
                            ..f
                        },
                        (fuel - 1) as nat,
                    )
                }
            },
            Task::Goal(_) => advanced(d, FrontierView { stack: rest, ..f }, fuel),
        }
    }
}

/// How a rollout ends.
pub enum RolloutView<C> {
    /// With a complete plan.
    Plan(FrontierView<C>),
    /// With the proof that there is none below.
    DeadEnd,
    /// Without a result: the budget ran out, or the cost bound was reached.
    Unknown,
}

/// A depth-first rollout from a choice point, and the budget left.
pub open spec fn rolled<M: PlanModel>(
    d: HtnDomain<M>,
    f: FrontierView<M::Component>,
    head: usize,
    depth: nat,
    bound: Option<u64>,
    fuel: nat,
) -> (RolloutView<M::Component>, nat)
    decreases depth, d.tasks@[head as int]->Compound_0.methods@.len() + 1,
{
    if (bound matches Some(b) && f.g >= b) || depth == 0 || fuel == 0 {
        (RolloutView::Unknown, fuel)
    } else {
        rolled_from(d, f, head, 0, depth, bound, fuel)
    }
}

/// A rollout over the branches of the choice point from index `i` on.
pub open spec fn rolled_from<M: PlanModel>(
    d: HtnDomain<M>,
    f: FrontierView<M::Component>,
    head: usize,
    i: nat,
    depth: nat,
    bound: Option<u64>,
    fuel: nat,
) -> (RolloutView<M::Component>, nat)
    decreases depth, d.tasks@[head as int]->Compound_0.methods@.len() - i,
{
    let c = d.tasks@[head as int]->Compound_0;
    if i >= c.methods@.len() {
        (RolloutView::DeadEnd, fuel)
    } else if !c.methods@[i as int].valid(f.state) {
        rolled_from(d, f, head, i + 1, depth, bound, fuel)
    } else if fuel == 0 || depth == 0 {
        (RolloutView::Unknown, fuel)
    } else {
        let (stop, left) = advanced(
            d,
            FrontierView { stack: with_members(f.stack, c.methods@[i as int]), ..f },
            (fuel - 1) as nat,
        );
        match stop {
            StopView::Complete(end) => (RolloutView::Plan(end), left),
            StopView::Failed => rolled_from(d, f, head, i + 1, depth, bound, left),
            StopView::Aborted => (RolloutView::Unknown, left),
            StopView::Choice(next, head2) => {
                let (r, left2) = rolled(d, next, head2, (depth - 1) as nat, bound, left);
                match r {
                    RolloutView::DeadEnd => rolled_from(d, f, head, i + 1, depth, bound, left2),
                    _ => (r, left2),
                }
            },
        }
    }
}

proof fn lemma_turns_push<M: PlanModel>(
    d: HtnDomain<M>,
    a: FrontierView<M::Component>,
    b: FrontierView<M::Component>,
    t: Turn,
)
    requires
        leads(d, a, b),
        turn(d, b, t) is Some,
    ensures
        leads(d, a, turn(d, b, t)->Some_0),
{
    let ts = choose|ts: Seq<Turn>| #[trigger] turns(d, a, ts) == Some(b);
    let more = ts.push(t);
    assert(more.drop_last() =~= ts);
    assert(turns(d, a, more) == turn(d, b, t));
}

proof fn lemma_leads_self<M: PlanModel>(d: HtnDomain<M>, a: FrontierView<M::Component>)
    ensures
        leads(d, a, a),
{
    assert(turns(d, a, Seq::empty()) == Some(a));
}

/// Whether the stack and the plan name what the domain has, and the state fits.
pub open spec fn frontier_ok<M: PlanModel>(
    d: HtnDomain<M>,
    f: FrontierView<M::Component>,
) -> bool {
    &&& f.state.len() == d.slots()
    &&& forall|i: int| 0 <= i < f.stack.len() ==> (#[trigger] f.stack[i]) < d.tasks@.len()
    &&& plan_ok(d, f.plan)
}

pub(crate) proof fn lemma_run_order_known<M: PlanModel>(d: HtnDomain<M>, m: Method<M>)
    requires
        d.wf(),
        m.wf(d.tasks@.len(), d.slots()),
    ensures
        forall|i: int|
            0 <= i < m.run_order().len() ==> (#[trigger] m.run_order()[i]) < d.tasks@.len(),
{
    match m.order {
        SubtaskOrder::Total => {
            assert forall|i: int| 0 <= i < m.run_order().len() implies (#[trigger] m.run_order()[i])
                < d.tasks@.len() by {
                assert(m.subtasks@[i] < d.tasks@.len());
            }
        },
        SubtaskOrder::Partial { preds, orders, first } => {
            crate::refinement::lemma_partial_work(m, 0);
            assert forall|i: int| 0 <= i < m.run_order().len() implies (#[trigger] m.run_order()[i])
                < d.tasks@.len() by {
                assert(first@[i] < m.subtasks@.len());
                assert(m.subtasks@[first@[i] as int] < d.tasks@.len());
            }
        },
    }
}

proof fn lemma_with_members_ok<M: PlanModel>(
    d: HtnDomain<M>,
    f: FrontierView<M::Component>,
    m: Method<M>,
)
    requires
        d.wf(),
        frontier_ok(d, f),
        m.wf(d.tasks@.len(), d.slots()),
    ensures
        frontier_ok(d, (FrontierView { stack: with_members(f.stack, m), ..f })),
{
    lemma_run_order_known(d, m);
    let stack = with_members(f.stack, m);
    assert forall|i: int| 0 <= i < stack.len() implies (#[trigger] stack[i]) < d.tasks@.len() by {
        if i < f.stack.len() {
            assert(stack[i] == f.stack[i]);
        } else {
            let k = m.run_order().len() - 1 - (i - f.stack.len());
            assert(stack[i] == m.run_order()[k]);
        }
    }
}

/// Advancing is a run: wherever it stops, moves lead there.
proof fn lemma_advanced_leads<M: PlanModel>(
    d: HtnDomain<M>,
    a: FrontierView<M::Component>,
    f: FrontierView<M::Component>,
    fuel: nat,
)
    requires
        d.wf(),
        frontier_ok(d, f),
        leads(d, a, f),
    ensures
        advanced(d, f, fuel).1 <= fuel,
        match advanced(d, f, fuel).0 {
            StopView::Complete(end) => leads(d, a, end) && end.stack.len() == 0 && frontier_ok(
                d,
                end,
            ),
            StopView::Choice(next, head) => {
                &&& head < d.tasks@.len()
                &&& d.tasks@[head as int] is Compound
                &&& frontier_ok(d, next)
                &&& leads(d, a, (FrontierView { stack: next.stack.push(head), ..next }))
            },
            _ => true,
        },
    decreases fuel, f.stack.len(),
{
    if f.stack.len() > 0 {
        let front = f.stack.last();
        let rest = f.stack.drop_last();
        assert(f.stack[f.stack.len() - 1] < d.tasks@.len());
        assert(d.tasks@[front as int].wf(d.tasks@.len(), d.slots()));
        match d.tasks@[front as int] {
            Task::Primitive(p) => {
                if p.ready(f.state) && fuel > 0 {
                    let next = turn(d, f, Turn::Run)->Some_0;
                    lemma_turns_push(d, a, f, Turn::Run);
                    crate::domain::lemma_after_len(p, f.state);
                    assert(frontier_ok(d, next));
                    lemma_advanced_leads(d, a, next, (fuel - 1) as nat);
                }
            },
            Task::Compound(c) => {
                let valid = valid_methods(c, f.state);
                lemma_valid_methods(c, f.state);
                if valid.len() > 1 {
                    let next = FrontierView { stack: rest, ..f };
                    assert(next.stack.push(front) =~= f.stack);
                    assert((FrontierView { stack: next.stack.push(front), ..next }) == f);
                } else if valid.len() == 1 && fuel > 0 {
                    assert(valid.contains(valid[0]));
                    let m = c.methods@[valid[0] as int];
                    assert(m.wf(d.tasks@.len(), d.slots()));
                    let t = Turn::Choose(valid[0] as nat);
                    lemma_turns_push(d, a, f, t);
                    let popped = FrontierView { stack: rest, ..f };
                    assert(frontier_ok(d, popped));
                    lemma_with_members_ok(d, popped, m);
                    lemma_advanced_leads(d, a, turn(d, f, t)->Some_0, (fuel - 1) as nat);
                }
            },
            Task::Goal(_) => {
                lemma_turns_push(d, a, f, Turn::Skip);
                lemma_advanced_leads(d, a, turn(d, f, Turn::Skip)->Some_0, fuel);
            },
        }
    }
}

/// A rollout that finds a plan is a run.
proof fn lemma_rolled_leads<M: PlanModel>(
    d: HtnDomain<M>,
    a: FrontierView<M::Component>,
    f: FrontierView<M::Component>,
    head: usize,
    depth: nat,
    bound: Option<u64>,
    fuel: nat,
)
    requires
        d.wf(),
        frontier_ok(d, f),
        head < d.tasks@.len(),
        d.tasks@[head as int] is Compound,
        leads(d, a, (FrontierView { stack: f.stack.push(head), ..f })),
    ensures
        rolled(d, f, head, depth, bound, fuel).1 <= fuel,
        rolled(d, f, head, depth, bound, fuel).0 matches RolloutView::Plan(end) ==> leads(
            d,
            a,
            end,
        ) && end.stack.len() == 0 && frontier_ok(d, end),
    decreases depth, d.tasks@[head as int]->Compound_0.methods@.len() + 1,
{
    if !((bound matches Some(b) && f.g >= b) || depth == 0 || fuel == 0) {
        lemma_rolled_from_leads(d, a, f, head, 0, depth, bound, fuel);
    }
}

proof fn lemma_rolled_from_leads<M: PlanModel>(
    d: HtnDomain<M>,
    a: FrontierView<M::Component>,
    f: FrontierView<M::Component>,
    head: usize,
    i: nat,
    depth: nat,
    bound: Option<u64>,
    fuel: nat,
)
    requires
        d.wf(),
        frontier_ok(d, f),
        head < d.tasks@.len(),
        d.tasks@[head as int] is Compound,
        leads(d, a, (FrontierView { stack: f.stack.push(head), ..f })),
    ensures
        rolled_from(d, f, head, i, depth, bound, fuel).1 <= fuel,
        rolled_from(d, f, head, i, depth, bound, fuel).0 matches RolloutView::Plan(end) ==> leads(
            d,
            a,
            end,
        ) && end.stack.len() == 0 && frontier_ok(d, end),
    decreases depth, d.tasks@[head as int]->Compound_0.methods@.len() - i,
{
    let c = d.tasks@[head as int]->Compound_0;
    if i < c.methods@.len() {
        if !c.methods@[i as int].valid(f.state) {
            lemma_rolled_from_leads(d, a, f, head, i + 1, depth, bound, fuel);
        } else if fuel > 0 && depth > 0 {
            let m = c.methods@[i as int];
            let child = FrontierView { stack: with_members(f.stack, m), ..f };
            lemma_commit_leads(d, a, f, head, i);
            lemma_advanced_leads(d, a, child, (fuel - 1) as nat);
            let (stop, left) = advanced(d, child, (fuel - 1) as nat);
            match stop {
                StopView::Failed => {
                    lemma_rolled_from_leads(d, a, f, head, i + 1, depth, bound, left);
                },
                StopView::Choice(next, head2) => {
                    lemma_rolled_leads(d, a, next, head2, (depth - 1) as nat, bound, left);
                    let (r, left2) = rolled(d, next, head2, (depth - 1) as nat, bound, left);
                    if r is DeadEnd {
                        lemma_rolled_from_leads(d, a, f, head, i + 1, depth, bound, left2);
                    }
                },
                _ => {},
            }
        }
    }
}

/// Committing a valid method of a choice point is a move.
proof fn lemma_commit_leads<M: PlanModel>(
    d: HtnDomain<M>,
    a: FrontierView<M::Component>,
    f: FrontierView<M::Component>,
    head: usize,
    i: nat,
)
    requires
        d.wf(),
        frontier_ok(d, f),
        head < d.tasks@.len(),
        d.tasks@[head as int] is Compound,
        leads(d, a, (FrontierView { stack: f.stack.push(head), ..f })),
        i < d.tasks@[head as int]->Compound_0.methods@.len(),
        d.tasks@[head as int]->Compound_0.methods@[i as int].valid(f.state),
    ensures
        ({
            let m = d.tasks@[head as int]->Compound_0.methods@[i as int];
            let child = FrontierView { stack: with_members(f.stack, m), ..f };
            leads(d, a, child) && frontier_ok(d, child)
        }),
{
    let m = d.tasks@[head as int]->Compound_0.methods@[i as int];
    assert(d.tasks@[head as int].wf(d.tasks@.len(), d.slots()));
    assert(m.wf(d.tasks@.len(), d.slots()));
    lemma_with_members_ok(d, f, m);
    let at = FrontierView { stack: f.stack.push(head), ..f };
    assert(at.stack.drop_last() =~= f.stack);
    lemma_turns_push(d, a, at, Turn::Choose(i));
}

/// A point of the search.
pub struct Frontier<C> {
    /// The scratchpad.
    pub state: PlanState<C>,
    /// The task occurrences still to decompose, the next one last.
    pub stack: Vec<usize>,
    /// The primitive tasks of the plan so far.
    pub plan: Vec<usize>,
    /// The accumulated cost of the plan so far.
    pub g: u64,
}

impl<C> View for Frontier<C> {
    type V = FrontierView<C>;

    open spec fn view(&self) -> FrontierView<C> {
        FrontierView { state: self.state@, stack: self.stack@, plan: self.plan@, g: self.g }
    }
}

/// Where advancing a frontier's forced moves stopped.
pub enum Stop<C> {
    /// Nothing is left to decompose.
    Complete(Frontier<C>),
    /// A primitive's preconditions failed, or no branch applied.
    Failed,
    /// The step budget ran out.
    Aborted,
    /// A compound task with two or more applicable branches, which are listed.
    Choice(Frontier<C>, usize, Vec<u32>),
}

impl<C> Stop<C> {
    /// What the stop stands for.
    pub open spec fn view(&self) -> StopView<C> {
        match self {
            Stop::Complete(f) => StopView::Complete(f@),
            Stop::Failed => StopView::Failed,
            Stop::Aborted => StopView::Aborted,
            Stop::Choice(f, head, _) => StopView::Choice(f@, *head),
        }
    }
}

/// How a rollout ended.
pub enum Rollout<C> {
    /// With a complete plan.
    Plan(Frontier<C>),
    /// With the proof that there is none below.
    DeadEnd,
    /// Without a result.
    Unknown,
}

impl<C> Rollout<C> {
    /// What the outcome stands for.
    pub open spec fn view(&self) -> RolloutView<C> {
        match self {
            Rollout::Plan(f) => RolloutView::Plan(f@),
            Rollout::DeadEnd => RolloutView::DeadEnd,
            Rollout::Unknown => RolloutView::Unknown,
        }
    }
}

/// The applicable branches of a task, in declaration order.
pub(crate) fn applicable<M: PlanModel>(
    c: &CompoundTask<M>,
    state: &PlanState<M::Component>,
) -> (valid: Vec<u32>)
    requires
        c.methods@.len() <= u32::MAX,
        c.checks_fit(state@.len()),
    ensures
        valid@ == valid_methods(*c, state@),
{
    let mut valid: Vec<u32> = Vec::new();
    for i in 0..c.methods.len()
        invariant
            c.methods@.len() <= u32::MAX,
            c.checks_fit(state@.len()),
            valid@ == valid_below(*c, state@, i as nat),
    {
        if crate::model::evaluate_all(&c.methods[i].preconditions, state) {
            valid.push(i as u32);
        }
    }
    valid
}

/// Puts a method's members in front, the first to run on top.
pub(crate) fn push_members<M: PlanModel>(stack: &mut Vec<usize>, m: &Method<M>)
    requires
        m.order matches SubtaskOrder::Partial { preds, orders, first } ==> forall|i: int|
            0 <= i < first@.len() ==> (#[trigger] first@[i]) < m.subtasks@.len(),
    ensures
        final(stack)@ == with_members(old(stack)@, *m),
{
    let ghost before = stack@;
    let ghost order = m.run_order();
    match &m.order {
        SubtaskOrder::Total => {
            let mut k: usize = m.subtasks.len();
            while k > 0
                invariant
                    k <= m.subtasks@.len(),
                    order == m.run_order(),
                    m.order is Total,
                    stack@ == before + order.skip(k as int).reverse(),
                decreases k,
            {
                k = k - 1;
                stack.push(m.subtasks[k] as usize);
                assert(stack@ =~= before + order.skip(k as int).reverse());
            }
            assert(order.skip(0) =~= order);
        },
        SubtaskOrder::Partial { preds, orders, first } => {
            let list = first.to_vec();
            let mut k: usize = list.len();
            while k > 0
                invariant
                    k <= list@.len(),
                    list@ == first@,
                    order == m.run_order(),
                    m.order == (SubtaskOrder::Partial {
                        preds: *preds,
                        orders: *orders,
                        first: *first,
                    }),
                    forall|i: int|
                        0 <= i < first@.len() ==> (#[trigger] first@[i]) < m.subtasks@.len(),
                    stack@ == before + order.skip(k as int).reverse(),
                decreases k,
            {
                k = k - 1;
                assert(first@[k as int] < m.subtasks@.len());
                stack.push(m.subtasks[list[k] as usize] as usize);
                assert(stack@ =~= before + order.skip(k as int).reverse());
            }
            assert(order.skip(0) =~= order);
        },
    }
}

pub(crate) proof fn lemma_order_in_range<M: PlanModel>(m: Method<M>)
    requires
        m.order_wf(),
    ensures
        m.order matches SubtaskOrder::Partial { preds, orders, first } ==> forall|i: int|
            0 <= i < first@.len() ==> (#[trigger] first@[i]) < m.subtasks@.len(),
{
    if m.order is Partial {
        crate::refinement::lemma_partial_work(m, 0);
    }
}

/// Applies forced moves from the front until a choice point, a complete plan, a
/// failure, or the end of the budget.
pub fn advance<M: PlanModel>(
    domain: &HtnDomain<M>,
    frontier: Frontier<M::Component>,
    fuel: &mut u32,
) -> (stop: Stop<M::Component>)
    requires
        domain.wf(),
        frontier_ok(*domain, frontier@),
    ensures
        (stop.view(), *final(fuel) as nat) == advanced(*domain, frontier@, *old(fuel) as nat),
        stop matches Stop::Choice(f, head, list) ==> list@ == valid_methods(
            domain.tasks@[head as int]->Compound_0,
            f@.state,
        ),
{
    let mut f = frontier;
    loop
        invariant
            domain.wf(),
            frontier_ok(*domain, f@),
            advanced(*domain, frontier@, *old(fuel) as nat) == advanced(
                *domain,
                f@,
                *fuel as nat,
            ),
        decreases *fuel, f.stack@.len(),
    {
        let ghost before = f@;
        if f.stack.len() == 0 {
            return Stop::Complete(f);
        }
        let front: usize = f.stack.pop().unwrap();
        assert(f.stack@ =~= before.stack.drop_last());
        assert(front == before.stack[before.stack.len() - 1]);
        assert(domain.tasks@[front as int].wf(domain.tasks@.len(), domain.slots()));
        match &domain.tasks[front] {
            Task::Primitive(p) => {
                if !p.preconditions_met(&f.state) {
                    return Stop::Failed;
                }
                if *fuel == 0 {
                    return Stop::Aborted;
                }
                *fuel = *fuel - 1;
                f.g = add_cost(f.g, p.cost_in(&f.state));
                p.apply_effects(&mut f.state);
                f.plan.push(front);
            },
            Task::Compound(c) => {
                assert(c.checks_fit(f.state@.len())) by {
                    assert forall|i: int| 0 <= i < c.methods@.len() implies crate::model::all_fit(
                        (#[trigger] c.methods@[i]).preconditions@,
                        f.state@.len(),
                    ) by {
                        assert(c.methods@[i].wf(domain.tasks@.len(), domain.slots()));
                    }
                }
                let valid = applicable(c, &f.state);
                proof {
                    lemma_valid_methods(*c, f.state@);
                }
                if valid.len() == 0 {
                    return Stop::Failed;
                }
                if valid.len() > 1 {
                    return Stop::Choice(f, front, valid);
                }
                if *fuel == 0 {
                    return Stop::Aborted;
                }
                *fuel = *fuel - 1;
                let only: usize = valid[0] as usize;
                assert(valid@.contains(valid@[0]));
                proof {
                    let m = c.methods@[only as int];
                    assert(m.wf(domain.tasks@.len(), domain.slots()));
                    lemma_order_in_range(m);
                    lemma_with_members_ok(*domain, f@, m);
                }
                push_members(&mut f.stack, &c.methods[only]);
            },
            Task::Goal(_) => {},
        }
    }
}

/// A copy of a frontier.
fn copy_frontier<M: PlanModel>(f: &Frontier<M::Component>) -> (r: Frontier<M::Component>)
    ensures
        r@ == f@,
{
    Frontier {
        state: f.state.duplicate(),
        stack: copy_indices(&f.stack),
        plan: copy_indices(&f.plan),
        g: f.g,
    }
}

/// One depth-first rollout from a choice point: the applicable branches in
/// declaration order, with backtracking over dead ends, until a plan, a proven
/// dead end, or the end of the budget. `depth` bounds the number of nested
/// choices, and a frontier that costs as much as `bound` is given up.
pub fn dfs_rollout<M: PlanModel>(
    domain: &HtnDomain<M>,
    frontier: &Frontier<M::Component>,
    head: usize,
    depth: usize,
    bound: Option<u64>,
    fuel: &mut u32,
) -> (r: Rollout<M::Component>)
    requires
        domain.wf(),
        frontier_ok(*domain, frontier@),
        head < domain.tasks@.len(),
        domain.tasks@[head as int] is Compound,
    ensures
        (r.view(), *final(fuel) as nat) == rolled(
            *domain,
            frontier@,
            head,
            depth as nat,
            bound,
            *old(fuel) as nat,
        ),
    decreases depth,
{
    match bound {
        Some(b) => {
            if frontier.g >= b {
                return Rollout::Unknown;
            }
        },
        None => {},
    }
    if depth == 0 || *fuel == 0 {
        return Rollout::Unknown;
    }
    assert(domain.tasks@[head as int].wf(domain.tasks@.len(), domain.slots()));
    match &domain.tasks[head] {
        Task::Compound(c) => {
            for i in 0..c.methods.len()
                invariant
                    domain.wf(),
                    frontier_ok(*domain, frontier@),
                    head < domain.tasks@.len(),
                    domain.tasks@[head as int] == Task::<M>::Compound(*c),
                    c.wf(domain.tasks@.len(), domain.slots()),
                    depth > 0,
                    rolled(*domain, frontier@, head, depth as nat, bound, *old(fuel) as nat)
                        == rolled_from(
                        *domain,
                        frontier@,
                        head,
                        i as nat,
                        depth as nat,
                        bound,
                        *fuel as nat,
                    ),
            {
                let m = &c.methods[i];
                assert(c.methods@[i as int].wf(domain.tasks@.len(), domain.slots()));
                if crate::model::evaluate_all(&m.preconditions, &frontier.state) {
                    if *fuel == 0 {
                        return Rollout::Unknown;
                    }
                    *fuel = *fuel - 1;
                    let mut child = copy_frontier::<M>(frontier);
                    proof {
                        lemma_order_in_range(*m);
                        lemma_with_members_ok(*domain, frontier@, *m);
                    }
                    push_members(&mut child.stack, m);
                    let ghost start = child@;
                    let ghost left = *fuel;
                    proof {
                        lemma_leads_self(*domain, start);
                        lemma_advanced_leads(*domain, start, start, left as nat);
                    }
                    match advance(domain, child, fuel) {
                        Stop::Complete(end) => {
                            return Rollout::Plan(end);
                        },
                        Stop::Failed => {},
                        Stop::Aborted => {
                            return Rollout::Unknown;
                        },
                        Stop::Choice(next, head2, _) => {
                            match dfs_rollout(domain, &next, head2, depth - 1, bound, fuel) {
                                Rollout::DeadEnd => {},
                                r => {
                                    return r;
                                },
                            }
                        },
                    }
                }
            }
            Rollout::DeadEnd
        },
        _ => Rollout::DeadEnd,
    }
}

/// The statistics of a tree node.
pub struct NodeStats<R> {
    /// How many iterations went through the node.
    pub visits: u64,
    /// The accumulated reward of those iterations.
    pub reward: R,
}

/// The tree policy: how rewards accumulate, and which child to descend to.
/// Nothing is asked of what it returns: the search is sound under every policy,
/// and deterministic under every one that always answers the same.
pub trait TreePolicy {
    /// An accumulated reward.
    type Reward;

    /// The reward that no iteration has added to yet.
    fn start(&self) -> Self::Reward;

    /// The reward after one more iteration, which found a complete plan of this
    /// cost, or none.
    fn credit(&self, sum: &Self::Reward, found: Option<u64>) -> Self::Reward;

    /// The index in `live` of the child to descend to; the first child is taken
    /// where there is none at that index.
    fn pick(
        &self,
        stats: &Vec<NodeStats<Self::Reward>>,
        parent: usize,
        live: &Vec<usize>,
    ) -> usize;
}

/// A node of the search tree.
pub struct TreeNode<C> {
    /// The frontier and the compound task of a choice point; `None` where the
    /// node is terminal.
    pub at: Option<(Frontier<C>, usize)>,
    /// The applicable branches not tried yet.
    pub untried: Vec<u32>,
    /// The child nodes.
    pub children: Vec<usize>,
    /// The parent node.
    pub parent: Option<usize>,
    /// The plan is finished here.
    pub complete: bool,
    /// Proven: no completion beneath the node.
    pub dead_end: bool,
}

/// What a node of the search tree stands for.
pub struct NodeView<C> {
    /// The frontier and the compound task of a choice point; `None` where the
    /// node is terminal.
    pub at: Option<(FrontierView<C>, usize)>,
    /// The applicable branches not tried yet.
    pub untried: Seq<u32>,
    /// The child nodes.
    pub children: Seq<usize>,
    /// The parent node.
    pub parent: Option<usize>,
    /// The plan is finished here.
    pub complete: bool,
    /// Proven: no completion beneath the node.
    pub dead_end: bool,
}

impl<C> View for TreeNode<C> {
    type V = NodeView<C>;

    open spec fn view(&self) -> NodeView<C> {
        NodeView {
            at: match self.at {
                Some((f, head)) => Some((f@, head)),
                None => None,
            },
            untried: self.untried@,
            children: self.children@,
            parent: self.parent,
            complete: self.complete,
            dead_end: self.dead_end,
        }
    }
}

/// What the nodes of a search tree stand for.
pub open spec fn views<C>(nodes: Seq<TreeNode<C>>) -> Seq<NodeView<C>> {
    Seq::new(nodes.len(), |i: int| nodes[i]@)
}

/// The cheapest complete plan found so far.
pub struct Best {
    /// Its cost.
    pub cost: u64,
    /// Its primitive tasks.
    pub plan: Vec<usize>,
}

/// What the cheapest complete plan found so far stands for.
pub struct BestView {
    /// Its cost.
    pub cost: u64,
    /// Its primitive tasks.
    pub plan: Seq<usize>,
}

/// What the cheapest complete plan found so far stands for, if any.
pub open spec fn best_view(best: Option<Best>) -> Option<BestView> {
    match best {
        Some(b) => Some(BestView { cost: b.cost, plan: b.plan@ }),
        None => None,
    }
}

/// A search tree: its nodes, their statistics, and the cheapest complete plan
/// found so far.
pub struct TreeView<C, R> {
    /// The nodes, the root first.
    pub nodes: Seq<NodeView<C>>,
    /// The statistics of each node.
    pub stats: Seq<NodeStats<R>>,
    /// The cheapest complete plan found so far.
    pub best: Option<BestView>,
}

/// Whether a choice point is reached from the frontier `a`, and its untried
/// branches apply.
pub open spec fn choice_ok<M: PlanModel>(
    d: HtnDomain<M>,
    a: FrontierView<M::Component>,
    f: FrontierView<M::Component>,
    head: usize,
    untried: Seq<u32>,
) -> bool {
    &&& frontier_ok(d, f)
    &&& head < d.tasks@.len()
    &&& d.tasks@[head as int] is Compound
    &&& leads(d, a, (FrontierView { stack: f.stack.push(head), ..f }))
    &&& forall|k: int|
        0 <= k < untried.len() ==> (#[trigger] untried[k])
            < d.tasks@[head as int]->Compound_0.methods@.len()
            && d.tasks@[head as int]->Compound_0.methods@[untried[k] as int].valid(f.state)
}

/// Whether a node of a tree of `n` nodes is well-formed.
pub open spec fn node_ok<M: PlanModel>(
    d: HtnDomain<M>,
    a: FrontierView<M::Component>,
    node: NodeView<M::Component>,
    i: int,
    n: nat,
) -> bool {
    &&& node.parent matches Some(p) ==> p < i
    &&& forall|k: int| 0 <= k < node.children.len() ==> i < (#[trigger] node.children[k]) < n
    &&& match node.at {
        Some((f, head)) => choice_ok(d, a, f, head, node.untried),
        None => node.untried.len() == 0,
    }
}

/// Whether a search tree is well-formed: parents come before their children, and
/// every choice point is reached from the frontier `a`.
pub open spec fn tree_ok<M: PlanModel>(
    d: HtnDomain<M>,
    a: FrontierView<M::Component>,
    nodes: Seq<NodeView<M::Component>>,
) -> bool {
    &&& nodes.len() > 0
    &&& forall|i: int| 0 <= i < nodes.len() ==> node_ok(d, a, #[trigger] nodes[i], i, nodes.len())
}

/// Whether moves lead from the frontier `a` to the end of this plan, at this cost.
pub open spec fn reached<M: PlanModel>(
    d: HtnDomain<M>,
    a: FrontierView<M::Component>,
    plan: Seq<usize>,
    cost: u64,
) -> bool {
    exists|end: FrontierView<M::Component>|
        {
            &&& #[trigger] leads(d, a, end)
            &&& end.stack.len() == 0
            &&& end.plan == plan
            &&& end.g == cost
        }
}

/// Whether the cheapest plan so far is one.
pub open spec fn best_ok<M: PlanModel>(
    d: HtnDomain<M>,
    a: FrontierView<M::Component>,
    best: Option<BestView>,
) -> bool {
    best matches Some(b) ==> plan_ok(d, b.plan) && reached(d, a, b.plan, b.cost)
}

/// The cost of the cheapest plan so far.
pub open spec fn best_cost(best: Option<BestView>) -> Option<u64> {
    match best {
        Some(b) => Some(b.cost),
        None => None,
    }
}

/// The cheaper of the cheapest plan so far and a newly found one; the older one
/// on a tie.
pub open spec fn kept<C>(prev: Option<BestView>, found: Option<FrontierView<C>>) -> Option<BestView> {
    match (prev, found) {
        (Some(b), Some(end)) => if end.g < b.cost {
            Some(BestView { cost: end.g, plan: end.plan })
        } else {
            prev
        },
        (None, Some(end)) => Some(BestView { cost: end.g, plan: end.plan }),
        (_, None) => prev,
    }
}

/// What committing the branch `m` of a choice point comes to: the child node,
/// where the budget allows one, and the end of the complete plan that is found,
/// at once or through a rollout.
pub open spec fn expansion<M: PlanModel>(
    d: HtnDomain<M>,
    f: FrontierView<M::Component>,
    head: usize,
    m: u32,
    depth: usize,
    bound: Option<u64>,
    parent: usize,
) -> (Option<NodeView<M::Component>>, Option<FrontierView<M::Component>>) {
    let method = d.tasks@[head as int]->Compound_0.methods@[m as int];
    let (stop, left) = advanced(
        d,
        FrontierView { stack: with_members(f.stack, method), ..f },
        (depth as u32) as nat,
    );
    let leaf = NodeView {
        at: None,
        untried: Seq::empty(),
        children: Seq::empty(),
        parent: Some(parent),
        complete: false,
        dead_end: false,
    };
    match stop {
        StopView::Complete(end) => (Some(NodeView { complete: true, ..leaf }), Some(end)),
        StopView::Failed => (Some(NodeView { dead_end: true, ..leaf }), None),
        StopView::Aborted => (None, None),
        StopView::Choice(next, head2) => {
            let r = rolled(d, next, head2, depth as nat, bound, left).0;
            (
                Some(
                    NodeView {
                        at: Some((next, head2)),
                        untried: valid_methods(
                            d.tasks@[head2 as int]->Compound_0,
                            next.state,
                        ),
                        dead_end: r is DeadEnd,
                        ..leaf
                    },
                ),
                match r {
                    RolloutView::Plan(end) => Some(end),
                    _ => None,
                },
            )
        },
    }
}

/// Which nodes of a tree are closed.
pub open spec fn closed_nodes<C>(nodes: Seq<NodeView<C>>) -> Seq<bool> {
    Seq::new(nodes.len(), |i: int| nodes[i].dead_end)
}

/// The nodes of a tree, closed as listed.
pub open spec fn with_closed<C>(nodes: Seq<NodeView<C>>, closed: Seq<bool>) -> Seq<NodeView<C>> {
    Seq::new(nodes.len(), |i: int| NodeView { dead_end: closed[i], ..nodes[i] })
}

/// Whether node `i` is a dead end by its own account: it is not complete, every
/// branch has been tried, and every child is closed.
pub open spec fn exhausted<C>(nodes: Seq<NodeView<C>>, closed: Seq<bool>, i: int) -> bool {
    &&& !nodes[i].complete
    &&& nodes[i].untried.len() == 0
    &&& forall|k: int| 0 <= k < nodes[i].children.len() ==> closed[#[trigger] nodes[i].children[k] as int]
}

/// The closed nodes after node `i` and then each of its ancestors, nearest
/// first, was closed where it is a dead end.
pub open spec fn closed_up<C>(nodes: Seq<NodeView<C>>, closed: Seq<bool>, i: int) -> Seq<bool>
    decreases i,
{
    let next = if exhausted(nodes, closed, i) {
        closed.update(i, true)
    } else {
        closed
    };
    match nodes[i].parent {
        Some(p) => if p < i {
            closed_up(nodes, next, p as int)
        } else {
            next
        },
        None => next,
    }
}

/// Whether node `j` is node `i` or one of its ancestors.
pub open spec fn at_or_above<C>(nodes: Seq<NodeView<C>>, i: int, j: int) -> bool
    decreases i,
{
    j == i || (nodes[i].parent matches Some(p) && p < i && at_or_above(nodes, p as int, j))
}

/// Whether `after` is `before` with one more iteration, credited by the policy.
pub open spec fn credited<P: TreePolicy>(
    policy: P,
    before: NodeStats<P::Reward>,
    found: Option<u64>,
    after: NodeStats<P::Reward>,
) -> bool {
    &&& after.visits == (if before.visits < u64::MAX {
        before.visits + 1
    } else {
        u64::MAX as int
    })
    &&& call_ensures(P::credit, (&policy, &before.reward, found), after.reward)
}

/// Whether `after` is a tree with the outcome of an iteration that ended at node
/// `start` recorded: the node and its ancestors are credited, those that turn out
/// to be dead ends are closed, and nothing else has changed.
pub open spec fn recorded<C, P: TreePolicy>(
    policy: P,
    before: TreeView<C, P::Reward>,
    start: int,
    found: Option<u64>,
    after: TreeView<C, P::Reward>,
) -> bool {
    &&& after.nodes == with_closed(
        before.nodes,
        closed_up(before.nodes, closed_nodes(before.nodes), start),
    )
    &&& after.stats.len() == before.stats.len()
    &&& forall|i: int|
        0 <= i < before.stats.len() ==> if at_or_above(before.nodes, start, i) {
            credited(policy, before.stats[i], found, #[trigger] after.stats[i])
        } else {
            after.stats[i] == before.stats[i]
        }
    &&& after.best == before.best
}

proof fn lemma_above_below<C>(nodes: Seq<NodeView<C>>, i: int, j: int)
    requires
        at_or_above(nodes, i, j),
    ensures
        j <= i,
    decreases i,
{
    if j != i {
        lemma_above_below(nodes, nodes[i].parent->Some_0 as int, j);
    }
}

/// Closing nodes keeps a tree well-formed.
proof fn lemma_closed_ok<M: PlanModel>(
    d: HtnDomain<M>,
    a: FrontierView<M::Component>,
    nodes: Seq<NodeView<M::Component>>,
    closed: Seq<bool>,
)
    requires
        tree_ok(d, a, nodes),
    ensures
        tree_ok(d, a, with_closed(nodes, closed)),
{
    let after = with_closed(nodes, closed);
    assert forall|i: int| 0 <= i < after.len() implies node_ok(
        d,
        a,
        #[trigger] after[i],
        i,
        after.len(),
    ) by {
        assert(node_ok(d, a, nodes[i], i, nodes.len()));
    }
}

/// Credits the node and every ancestor, and closes nodes on the way up: a node
/// is a proven dead end when it is not complete, every branch has been tried,
/// and every child is dead.
fn backprop<M: PlanModel, P: TreePolicy>(
    policy: &P,
    nodes: &mut Vec<TreeNode<M::Component>>,
    stats: &mut Vec<NodeStats<P::Reward>>,
    start: usize,
    found: Option<u64>,
    Ghost(d): Ghost<HtnDomain<M>>,
    Ghost(a): Ghost<FrontierView<M::Component>>,
    Ghost(best): Ghost<Option<BestView>>,
)
    requires
        tree_ok(d, a, views(old(nodes)@)),
        old(stats)@.len() == old(nodes)@.len(),
        start < old(nodes)@.len(),
    ensures
        recorded(
            *policy,
            (TreeView { nodes: views(old(nodes)@), stats: old(stats)@, best }),
            start as int,
            found,
            (TreeView { nodes: views(final(nodes)@), stats: final(stats)@, best }),
        ),
        tree_ok(d, a, views(final(nodes)@)),
        final(stats)@.len() == final(nodes)@.len(),
{
    let ghost before = views(nodes@);
    let ghost counted = stats@;
    let mut id: usize = start;
    proof {
        assert forall|i: int| start < i < before.len() implies !at_or_above(
            before,
            start as int,
            i,
        ) by {
            if at_or_above(before, start as int, i) {
                lemma_above_below(before, start as int, i);
            }
        }
        assert(views(nodes@) =~= with_closed(before, closed_nodes(views(nodes@))));
    }
    loop
        invariant_except_break
            at_or_above(before, start as int, id as int),
            closed_up(before, closed_nodes(views(nodes@)), id as int) == closed_up(
                before,
                closed_nodes(before),
                start as int,
            ),
            forall|i: int| 0 <= i <= id ==> #[trigger] stats@[i] == counted[i],
            forall|i: int|
                id < i < stats@.len() ==> if at_or_above(before, start as int, i) {
                    credited(*policy, counted[i], found, #[trigger] stats@[i])
                } else {
                    stats@[i] == counted[i]
                },
            forall|i: int|
                0 <= i <= id ==> at_or_above(before, start as int, i) == at_or_above(
                    before,
                    id as int,
                    i,
                ),
        invariant
            tree_ok(d, a, before),
            nodes@.len() == before.len(),
            views(nodes@) == with_closed(before, closed_nodes(views(nodes@))),
            counted.len() == before.len(),
            stats@.len() == nodes@.len(),
            id <= start < nodes@.len(),
        ensures
            nodes@.len() == before.len(),
            views(nodes@) == with_closed(before, closed_nodes(views(nodes@))),
            stats@.len() == nodes@.len(),
            closed_nodes(views(nodes@)) == closed_up(before, closed_nodes(before), start as int),
            forall|i: int|
                0 <= i < stats@.len() ==> if at_or_above(before, start as int, i) {
                    credited(*policy, counted[i], found, #[trigger] stats@[i])
                } else {
                    stats@[i] == counted[i]
                },
        decreases id,
    {
        let ghost flags = closed_nodes(views(nodes@));
        let ghost here = before[id as int];
        let visits: u64 = if stats[id].visits < u64::MAX {
            stats[id].visits + 1
        } else {
            u64::MAX
        };
        let reward = policy.credit(&stats[id].reward, found);
        stats.set(id, NodeStats { visits, reward });
        proof {
            assert(node_ok(d, a, before[id as int], id as int, before.len()));
            assert(views(nodes@)[id as int] == nodes@[id as int]@);
            assert(nodes@[id as int]@ == (NodeView { dead_end: flags[id as int], ..here }));
        }
        let mut dead: bool = !nodes[id].complete && nodes[id].untried.len() == 0;
        let n: usize = nodes[id].children.len();
        for k in 0..n
            invariant
                id < nodes@.len(),
                n == here.children.len(),
                nodes@[id as int].children@ == here.children,
                node_ok(d, a, here, id as int, nodes@.len()),
                flags == closed_nodes(views(nodes@)),
                dead == (!here.complete && here.untried.len() == 0 && forall|j: int|
                    0 <= j < k ==> flags[#[trigger] here.children[j] as int]),
        {
            assert(id < here.children[k as int] < nodes@.len());
            assert(views(nodes@)[here.children[k as int] as int]
                == nodes@[here.children[k as int] as int]@);
            if !nodes[nodes[id].children[k]].dead_end {
                dead = false;
            }
        }
        assert(dead == exhausted(before, flags, id as int));
        if dead {
            let ghost earlier = nodes@;
            nodes[id].dead_end = true;
            proof {
                assert forall|i: int| 0 <= i < nodes@.len() && i != id implies #[trigger] nodes@[i]
                    == earlier[i] by {}
                assert forall|i: int| 0 <= i < before.len() implies #[trigger] views(nodes@)[i] == (
                NodeView { dead_end: views(nodes@)[i].dead_end, ..before[i] }) by {
                    assert(views(earlier)[i] == (NodeView {
                        dead_end: flags[i],
                        ..before[i]
                    }));
                }
                assert(views(nodes@) =~= with_closed(before, closed_nodes(views(nodes@))));
            }
        }
        proof {
            assert(closed_nodes(views(nodes@)) =~= if dead {
                flags.update(id as int, true)
            } else {
                flags
            });
            assert(views(nodes@)[id as int] == nodes@[id as int]@);
            assert(here.parent == nodes@[id as int].parent);
            assert(credited(*policy, counted[id as int], found, stats@[id as int]));
            assert forall|i: int| 0 <= i < id implies at_or_above(before, id as int, i) == (
            before[id as int].parent matches Some(p) && at_or_above(before, p as int, i)) by {}
            if let Some(p) = before[id as int].parent {
                assert forall|i: int| p < i < id implies !at_or_above(
                    before,
                    start as int,
                    i,
                ) by {
                    if at_or_above(before, p as int, i) {
                        lemma_above_below(before, p as int, i);
                    }
                }
            }
        }
        match nodes[id].parent {
            Some(p) => {
                id = p;
            },
            None => {
                break;
            },
        }
    }
    proof {
        lemma_closed_ok(d, a, before, closed_nodes(views(nodes@)));
    }
}

/// The children of node `p` that are neither closed nor complete, of the first
/// `k`.
pub open spec fn live_below<C>(nodes: Seq<NodeView<C>>, p: int, k: nat) -> Seq<usize>
    decreases k,
{
    if k == 0 {
        Seq::empty()
    } else {
        let c = nodes[p].children[k - 1];
        let before = live_below(nodes, p, (k - 1) as nat);
        if !nodes[c as int].dead_end && !nodes[c as int].complete {
            before.push(c)
        } else {
            before
        }
    }
}

/// The children of node `p` that are neither closed nor complete.
pub open spec fn live_children<C>(nodes: Seq<NodeView<C>>, p: int) -> Seq<usize> {
    live_below(nodes, p, nodes[p].children.len())
}

/// Whether the policy may pick `k` among the live children of node `p`.
pub open spec fn picks<P: TreePolicy>(
    policy: P,
    stats: Seq<NodeStats<P::Reward>>,
    p: usize,
    live: Seq<usize>,
    k: usize,
) -> bool {
    exists|table: Vec<NodeStats<P::Reward>>, list: Vec<usize>|
        {
            &&& table@ == stats
            &&& list@ == live
            &&& #[trigger] call_ensures(P::pick, (&policy, &table, p, &list), k)
        }
}

/// Whether the policy may send a descent on from node `p` to node `c`: it picks
/// among the live children, and the first one is taken where it names none.
pub open spec fn descends<C, P: TreePolicy>(
    policy: P,
    nodes: Seq<NodeView<C>>,
    stats: Seq<NodeStats<P::Reward>>,
    p: usize,
    c: usize,
) -> bool {
    let live = live_children(nodes, p as int);
    &&& nodes[p as int].untried.len() == 0
    &&& live.len() > 0
    &&& exists|k: usize| #[trigger]
        picks(policy, stats, p, live, k) && c == live[if k < live.len() {
            k as int
        } else {
            0
        }]
}

/// Whether `path` is a descent from the root that stops at its last node: one
/// with an untried branch, or without live children.
pub open spec fn is_descent<C, P: TreePolicy>(
    policy: P,
    nodes: Seq<NodeView<C>>,
    stats: Seq<NodeStats<P::Reward>>,
    path: Seq<usize>,
) -> bool {
    &&& path.len() > 0
    &&& path[0] == 0
    &&& forall|i: int|
        0 < i < path.len() ==> descends(policy, nodes, stats, path[i - 1], #[trigger] path[i])
    &&& nodes[path.last() as int].untried.len() > 0 || live_children(
        nodes,
        path.last() as int,
    ).len() == 0
}

/// Descends from the root by the tree policy, over children that are neither
/// closed nor complete, to a node with an untried branch or without such
/// children.
fn descend<M: PlanModel, P: TreePolicy>(
    policy: &P,
    nodes: &Vec<TreeNode<M::Component>>,
    stats: &Vec<NodeStats<P::Reward>>,
    Ghost(d): Ghost<HtnDomain<M>>,
    Ghost(a): Ghost<FrontierView<M::Component>>,
) -> (current: usize)
    requires
        tree_ok(d, a, views(nodes@)),
    ensures
        current < nodes@.len(),
        exists|path: Seq<usize>| #[trigger]
            is_descent(*policy, views(nodes@), stats@, path) && path.last() == current,
{
    let ghost tree = views(nodes@);
    let mut current: usize = 0;
    let ghost mut path: Seq<usize> = seq![0usize];
    while nodes[current].untried.len() == 0
        invariant
            tree == views(nodes@),
            tree_ok(d, a, tree),
            current < nodes@.len(),
            path.len() > 0,
            path[0] == 0,
            path.last() == current,
            forall|i: int|
                0 < i < path.len() ==> descends(
                    *policy,
                    tree,
                    stats@,
                    path[i - 1],
                    #[trigger] path[i],
                ),
        decreases nodes@.len() - current,
    {
        let ghost here = tree[current as int];
        assert(here == nodes@[current as int]@);
        assert(node_ok(d, a, here, current as int, tree.len()));
        let mut live: Vec<usize> = Vec::new();
        let n: usize = nodes[current].children.len();
        for k in 0..n
            invariant
                current < nodes@.len(),
                tree == views(nodes@),
                here == tree[current as int],
                n == here.children.len(),
                nodes@[current as int].children@ == here.children,
                node_ok(d, a, here, current as int, tree.len()),
                live@ == live_below(tree, current as int, k as nat),
                forall|j: int|
                    0 <= j < live@.len() ==> current < (#[trigger] live@[j]) < nodes@.len(),
        {
            assert(current < here.children[k as int] < nodes@.len());
            let c: usize = nodes[current].children[k];
            assert(tree[c as int] == nodes@[c as int]@);
            if !nodes[c].dead_end && !nodes[c].complete {
                live.push(c);
            }
        }
        if live.len() == 0 {
            assert(is_descent(*policy, tree, stats@, path));
            return current;
        }
        let k: usize = policy.pick(stats, current, &live);
        let next: usize = if k < live.len() {
            live[k]
        } else {
            live[0]
        };
        proof {
            assert(call_ensures(P::pick, (policy, stats, current, &live), k));
            assert(picks(*policy, stats@, current, live@, k));
            assert(descends(*policy, tree, stats@, current, next));
            let longer = path.push(next);
            assert forall|i: int| 0 < i < longer.len() implies descends(
                *policy,
                tree,
                stats@,
                longer[i - 1],
                #[trigger] longer[i],
            ) by {
                if i < path.len() {
                    assert(longer[i - 1] == path[i - 1] && longer[i] == path[i]);
                }
            }
            path = longer;
        }
        current = next;
    }
    assert(tree[current as int] == nodes@[current as int]@);
    assert(is_descent(*policy, tree, stats@, path));
    current
}

/// Keeps the cheaper of the cheapest plan so far and a newly found one.
fn keep_best<M: PlanModel>(
    best: &mut Option<Best>,
    end: Frontier<M::Component>,
    Ghost(d): Ghost<HtnDomain<M>>,
    Ghost(a): Ghost<FrontierView<M::Component>>,
)
    requires
        best_ok(d, a, best_view(*old(best))),
        leads(d, a, end@),
        end@.stack.len() == 0,
        frontier_ok(d, end@),
    ensures
        best_ok(d, a, best_view(*final(best))),
        best_view(*final(best)) == kept(best_view(*old(best)), Some(end@)),
{
    let better: bool = match &*best {
        Some(b) => end.g < b.cost,
        None => true,
    };
    if better {
        let ghost view = end@;
        proof {
            assert(reached(d, a, view.plan, view.g));
        }
        *best = Some(Best { cost: end.g, plan: end.plan });
    }
}

/// The nodes of a tree with the first untried branch of node `p` taken.
pub open spec fn taken<C>(nodes: Seq<NodeView<C>>, p: int) -> Seq<NodeView<C>> {
    nodes.update(p, NodeView { untried: nodes[p].untried.skip(1), ..nodes[p] })
}

/// The nodes of a tree with a child added to node `p`.
pub open spec fn with_child<C>(
    nodes: Seq<NodeView<C>>,
    p: int,
    child: NodeView<C>,
) -> Seq<NodeView<C>> {
    nodes.update(
        p,
        NodeView { children: nodes[p].children.push(nodes.len() as usize), ..nodes[p] },
    ).push(child)
}

/// Whether `after` is a tree with the first untried branch of node `p` committed:
/// the child it leads to is added, the cheapest plan kept, and the outcome
/// recorded from the child on, or from the node itself where there is no child.
pub open spec fn expands<M: PlanModel, P: TreePolicy>(
    policy: P,
    d: HtnDomain<M>,
    depth: usize,
    before: TreeView<M::Component, P::Reward>,
    p: usize,
    after: TreeView<M::Component, P::Reward>,
) -> bool {
    let node = before.nodes[p as int];
    let (f, head) = node.at->Some_0;
    let (child, end) = expansion(
        d,
        f,
        head,
        node.untried[0],
        depth,
        best_cost(before.best),
        p,
    );
    let nodes = taken(before.nodes, p as int);
    let best = kept(before.best, end);
    let found = match end {
        Some(e) => Some(e.g),
        None => None,
    };
    match child {
        None => recorded(policy, TreeView { nodes, best, ..before }, p as int, None, after),
        Some(child) => exists|reward: P::Reward|
            {
                &&& #[trigger] call_ensures(P::start, (&policy,), reward)
                &&& recorded(
                    policy,
                    TreeView {
                        nodes: with_child(nodes, p as int, child),
                        stats: before.stats.push(NodeStats { visits: 0, reward }),
                        best,
                    },
                    nodes.len() as int,
                    found,
                    after,
                )
            },
    }
}

/// Whether `after` is a tree with a visit to node `p` recorded that found nothing
/// to do there; it is recorded twice where the node stays open.
pub open spec fn idles<C, P: TreePolicy>(
    policy: P,
    before: TreeView<C, P::Reward>,
    p: usize,
    after: TreeView<C, P::Reward>,
) -> bool {
    exists|mid: TreeView<C, P::Reward>|
        {
            &&& #[trigger] recorded(policy, before, p as int, None, mid)
            &&& if mid.nodes[p as int].dead_end || mid.nodes[p as int].complete {
                after == mid
            } else {
                recorded(policy, mid, p as int, None, after)
            }
        }
}

/// Whether one iteration may lead from one tree to another: it descends by the
/// policy, and commits the first untried branch of the node where it stops.
pub open spec fn iteration<M: PlanModel, P: TreePolicy>(
    policy: P,
    d: HtnDomain<M>,
    depth: usize,
    before: TreeView<M::Component, P::Reward>,
    after: TreeView<M::Component, P::Reward>,
) -> bool {
    exists|path: Seq<usize>|
        {
            let p = path.last();
            let node = before.nodes[p as int];
            &&& #[trigger] is_descent(policy, before.nodes, before.stats, path)
            &&& if node.untried.len() == 0 {
                idles(policy, before, p, after)
            } else if node.dead_end || node.complete {
                after == before
            } else {
                expands(policy, d, depth, before, p, after)
            }
        }
}

/// One iteration: descends, commits an untried branch, rolls out from where it
/// leads, and credits the nodes on the way.
fn iterate<M: PlanModel, P: TreePolicy>(
    policy: &P,
    domain: &HtnDomain<M>,
    depth: usize,
    nodes: &mut Vec<TreeNode<M::Component>>,
    stats: &mut Vec<NodeStats<P::Reward>>,
    best: &mut Option<Best>,
    Ghost(a): Ghost<FrontierView<M::Component>>,
)
    requires
        domain.wf(),
        tree_ok(*domain, a, views(old(nodes)@)),
        old(stats)@.len() == old(nodes)@.len(),
        best_ok(*domain, a, best_view(*old(best))),
    ensures
        tree_ok(*domain, a, views(final(nodes)@)),
        final(stats)@.len() == final(nodes)@.len(),
        best_ok(*domain, a, best_view(*final(best))),
        iteration(
            *policy,
            *domain,
            depth,
            (TreeView {
                nodes: views(old(nodes)@),
                stats: old(stats)@,
                best: best_view(*old(best)),
            }),
            (TreeView {
                nodes: views(final(nodes)@),
                stats: final(stats)@,
                best: best_view(*final(best)),
            }),
        ),
{
    let ghost d = *domain;
    let ghost known = best_view(*best);
    let ghost before = TreeView { nodes: views(nodes@), stats: stats@, best: known };
    let current: usize = descend::<M, P>(policy, nodes, stats, Ghost(d), Ghost(a));
    let ghost path = choose|path: Seq<usize>| #[trigger]
        is_descent(*policy, before.nodes, before.stats, path) && path.last() == current;
    let ghost node = before.nodes[current as int];
    assert(node == nodes@[current as int]@);
    if nodes[current].untried.len() == 0 {
        backprop::<M, P>(policy, nodes, stats, current, None, Ghost(d), Ghost(a), Ghost(known));
        let ghost mid = TreeView { nodes: views(nodes@), stats: stats@, best: known };
        assert(mid.nodes[current as int] == nodes@[current as int]@);
        if !nodes[current].dead_end && !nodes[current].complete {
            backprop::<M, P>(policy, nodes, stats, current, None, Ghost(d), Ghost(a), Ghost(known));
        }
        assert(recorded(*policy, before, current as int, None, mid));
        return;
    }
    if nodes[current].dead_end || nodes[current].complete {
        return;
    }
    assert(node_ok(d, a, node, current as int, before.nodes.len()));
    let m: u32 = nodes[current].untried.remove(0);
    let ghost removed = taken(before.nodes, current as int);
    proof {
        assert(m == node.untried[0]);
        assert(nodes@[current as int].untried@ =~= node.untried.skip(1));
        assert(views(nodes@) =~= removed);
        lemma_taken_ok(d, a, before.nodes, current as int);
    }
    let mut fuel: u32 = depth as u32;
    let stop = match &nodes[current].at {
        Some((f, head)) => {
            let mut child = copy_frontier::<M>(f);
            proof {
                lemma_commit_leads(d, a, f@, *head, m as nat);
            }
            match &domain.tasks[*head] {
                Task::Compound(c) => {
                    assert(domain.tasks@[*head as int].wf(domain.tasks@.len(), domain.slots()));
                    proof {
                        lemma_order_in_range(c.methods@[m as int]);
                    }
                    push_members(&mut child.stack, &c.methods[m as usize]);
                },
                _ => {},
            }
            proof {
                lemma_advanced_leads(d, a, child@, fuel as nat);
            }
            advance(domain, child, &mut fuel)
        },
        None => Stop::Failed,
    };
    let ghost (f, head) = node.at->Some_0;
    let ghost (child, end) = expansion(d, f, head, m, depth, best_cost(known), current);
    let id: usize = nodes.len();
    match stop {
        Stop::Complete(end) => {
            let g: u64 = end.g;
            keep_best::<M>(best, end, Ghost(d), Ghost(a));
            let ghost found = best_view(*best);
            grow::<M, P>(policy, nodes, stats, current, None, Vec::new(), true, false, Ghost(d), Ghost(a));
            assert(child->Some_0 == views(nodes@)[id as int]);
            backprop::<M, P>(policy, nodes, stats, id, Some(g), Ghost(d), Ghost(a), Ghost(found));
        },
        Stop::Failed => {
            grow::<M, P>(policy, nodes, stats, current, None, Vec::new(), false, true, Ghost(d), Ghost(a));
            assert(child->Some_0 == views(nodes@)[id as int]);
            backprop::<M, P>(policy, nodes, stats, id, None, Ghost(d), Ghost(a), Ghost(known));
        },
        Stop::Aborted => {
            backprop::<M, P>(policy, nodes, stats, current, None, Ghost(d), Ghost(a), Ghost(known));
        },
        Stop::Choice(next, head2, valid) => {
            let bound: Option<u64> = match &*best {
                Some(b) => Some(b.cost),
                None => None,
            };
            proof {
                lemma_rolled_leads(d, a, next@, head2, depth as nat, bound, fuel as nat);
                lemma_valid_methods(domain.tasks@[head2 as int]->Compound_0, next@.state);
                assert forall|k: int| 0 <= k < valid@.len() implies (#[trigger] valid@[k])
                    < domain.tasks@[head2 as int]->Compound_0.methods@.len()
                    && domain.tasks@[head2 as int]->Compound_0.methods@[valid@[k] as int].valid(
                    next@.state,
                ) by {
                    assert(valid@.contains(valid@[k]));
                }
            }
            let rollout = dfs_rollout(domain, &next, head2, depth, bound, &mut fuel);
            let (found, dead): (Option<u64>, bool) = match rollout {
                Rollout::Plan(end) => {
                    let g: u64 = end.g;
                    keep_best::<M>(best, end, Ghost(d), Ghost(a));
                    (Some(g), false)
                },
                Rollout::DeadEnd => (None, true),
                Rollout::Unknown => (None, false),
            };
            let ghost now = best_view(*best);
            assert(now == kept(known, end));
            grow::<M, P>(
                policy,
                nodes,
                stats,
                current,
                Some((next, head2)),
                valid,
                false,
                dead,
                Ghost(d),
                Ghost(a),
            );
            assert(child->Some_0 == views(nodes@)[id as int]);
            backprop::<M, P>(policy, nodes, stats, id, found, Ghost(d), Ghost(a), Ghost(now));
        },
    }
    proof {
        let after = TreeView { nodes: views(nodes@), stats: stats@, best: best_view(*best) };
        assert(expands(*policy, d, depth, before, current, after));
    }
}

/// Taking an untried branch keeps a tree well-formed.
proof fn lemma_taken_ok<M: PlanModel>(
    d: HtnDomain<M>,
    a: FrontierView<M::Component>,
    nodes: Seq<NodeView<M::Component>>,
    p: int,
)
    requires
        tree_ok(d, a, nodes),
        0 <= p < nodes.len(),
        nodes[p].untried.len() > 0,
    ensures
        tree_ok(d, a, taken(nodes, p)),
{
    let after = taken(nodes, p);
    assert forall|i: int| 0 <= i < after.len() implies node_ok(
        d,
        a,
        #[trigger] after[i],
        i,
        after.len(),
    ) by {
        assert(node_ok(d, a, nodes[i], i, nodes.len()));
        if i == p {
            let rest = after[p].untried;
            assert forall|k: int| 0 <= k < rest.len() implies (#[trigger] rest[k])
                == nodes[p].untried[k + 1] by {}
        }
    }
}

/// Adds a child node to the tree.
fn grow<M: PlanModel, P: TreePolicy>(
    policy: &P,
    nodes: &mut Vec<TreeNode<M::Component>>,
    stats: &mut Vec<NodeStats<P::Reward>>,
    parent: usize,
    at: Option<(Frontier<M::Component>, usize)>,
    untried: Vec<u32>,
    complete: bool,
    dead_end: bool,
    Ghost(d): Ghost<HtnDomain<M>>,
    Ghost(a): Ghost<FrontierView<M::Component>>,
)
    requires
        tree_ok(d, a, views(old(nodes)@)),
        old(stats)@.len() == old(nodes)@.len(),
        parent < old(nodes)@.len(),
        match at {
            Some((f, head)) => choice_ok(d, a, f@, head, untried@),
            None => untried@.len() == 0,
        },
    ensures
        tree_ok(d, a, views(final(nodes)@)),
        final(stats)@.len() == final(nodes)@.len(),
        views(final(nodes)@) == with_child(
            views(old(nodes)@),
            parent as int,
            (NodeView {
                at: match at {
                    Some((f, head)) => Some((f@, head)),
                    None => None,
                },
                untried: untried@,
                children: Seq::empty(),
                parent: Some(parent),
                complete,
                dead_end,
            }),
        ),
        exists|reward: P::Reward| #[trigger]
            call_ensures(P::start, (policy,), reward) && final(stats)@ == old(stats)@.push(
                NodeStats { visits: 0, reward },
            ),
{
    let ghost before = views(nodes@);
    let ghost old_nodes = nodes@;
    let id: usize = nodes.len();
    let node = TreeNode {
        at,
        untried,
        children: Vec::new(),
        parent: Some(parent),
        complete,
        dead_end,
    };
    let ghost child = node@;
    assert(child.children =~= Seq::<usize>::empty());
    nodes.push(node);
    let reward = policy.start();
    assert(call_ensures(P::start, (policy,), reward));
    stats.push(NodeStats { visits: 0, reward });
    nodes[parent].children.push(id);
    proof {
        let after = with_child(before, parent as int, child);
        assert(before[parent as int] == old_nodes[parent as int]@);
        assert(views(nodes@) =~= after);
        assert forall|i: int| 0 <= i < after.len() implies node_ok(
            d,
            a,
            #[trigger] after[i],
            i,
            after.len(),
        ) by {
            if i < before.len() {
                assert(node_ok(d, a, before[i], i, before.len()));
            }
        }
    }
}

/// Monte Carlo tree search over decompositions.
///
/// Every call builds a fresh tree under the iteration budget.
pub struct MctsSearcher<P> {
    /// Iterations per call.
    pub iterations: u32,
    /// The tree policy, with its exploration constant.
    pub policy: P,
    /// Step budget of one rollout's forced moves and commits; running out of
    /// it is no failure.
    pub rollout_depth: usize,
}

impl<P> MctsSearcher<P> {
    /// A searcher with the given iteration budget; the rollout budget defaults
    /// to 1000 steps.
    pub fn new(iterations: u32, policy: P) -> (s: MctsSearcher<P>)
        ensures
            s == (MctsSearcher { iterations, policy, rollout_depth: 1000 }),
    {
        MctsSearcher { iterations, policy, rollout_depth: 1000 }
    }

    /// Sets the tree policy, which holds the exploration constant.
    pub fn with_exploration(self, policy: P) -> (s: MctsSearcher<P>)
        ensures
            s == (MctsSearcher { policy, ..self }),
    {
        MctsSearcher { iterations: self.iterations, policy, rollout_depth: self.rollout_depth }
    }

    /// Sets the step budget of a rollout.
    pub fn with_rollout_depth(self, rollout_depth: usize) -> (s: MctsSearcher<P>)
        ensures
            s == (MctsSearcher { rollout_depth, ..self }),
    {
        MctsSearcher { iterations: self.iterations, policy: self.policy, rollout_depth }
    }
}

impl<P: Default> Default for MctsSearcher<P> {
    fn default() -> (s: MctsSearcher<P>)
        ensures
            s.iterations == 2000,
            s.rollout_depth == 1000,
            call_ensures(P::default, (), s.policy),
    {
        MctsSearcher::new(2000, P::default())
    }
}

/// The outcome of a finished plan that carries no decomposition record.
pub open spec fn finished(plan: Seq<usize>) -> Outcome {
    Outcome { plan, mtr: Seq::empty(), status: PlanStatus::Complete, resume: None }
}

/// Whether a compiled plan is the end of moves from the frontier `a`, at this cost.
pub open spec fn is_run<M: PlanModel>(
    d: HtnDomain<M>,
    a: FrontierView<M::Component>,
    plan: Plan,
    cost: u64,
) -> bool {
    exists|steps: Seq<usize>| #[trigger]
        reached(d, a, steps, cost) && compiles(d, plan, finished(steps))
}

/// Whether a tree is where a search starts: a choice point alone, which nothing
/// was tried at.
pub open spec fn starts<M: PlanModel, P: TreePolicy>(
    policy: P,
    d: HtnDomain<M>,
    f: FrontierView<M::Component>,
    head: usize,
    tree: TreeView<M::Component, P::Reward>,
) -> bool {
    let root = NodeView {
        at: Some((f, head)),
        untried: valid_methods(d.tasks@[head as int]->Compound_0, f.state),
        children: Seq::empty(),
        parent: None,
        complete: false,
        dead_end: false,
    };
    &&& tree.nodes == seq![root]
    &&& tree.best is None
    &&& exists|reward: P::Reward| #[trigger]
        call_ensures(P::start, (&policy,), reward) && tree.stats == seq![
            NodeStats { visits: 0, reward },
        ]
}

/// Whether `trees` are those of a search from a choice point: the starting tree,
/// and the tree after each iteration.
pub open spec fn is_search<M: PlanModel, P: TreePolicy>(
    policy: P,
    d: HtnDomain<M>,
    depth: usize,
    f: FrontierView<M::Component>,
    head: usize,
    trees: Seq<TreeView<M::Component, P::Reward>>,
) -> bool {
    &&& trees.len() > 0
    &&& starts(policy, d, f, head, trees[0])
    &&& forall|i: int|
        0 < i < trees.len() ==> iteration(policy, d, depth, trees[i - 1], #[trigger] trees[i])
}

/// Whether a result is the cheapest plan that a tree has seen.
pub open spec fn returns_best<M: PlanModel>(
    d: HtnDomain<M>,
    best: Option<BestView>,
    found: Option<Plan>,
) -> bool {
    match (best, found) {
        (Some(b), Some(plan)) => compiles(d, plan, finished(b.plan)),
        (None, None) => true,
        _ => false,
    }
}

impl<M: PlanModel, P: TreePolicy> Searcher<M> for MctsSearcher<P> {
    /// Without iterations, nothing. Where forced moves alone finish from the
    /// root, the plan they make; where they fail or outrun the budget, nothing.
    /// Otherwise the cheapest plan that the iterations come across, one after the
    /// other, in the tree that they grow from the first choice point; it is a run
    /// of the network.
    open spec fn may_return(
        &self,
        domain: HtnDomain<M>,
        state: ModelState<M>,
        found: Option<Plan>,
    ) -> bool {
        let a = root_frontier(domain, state);
        if self.iterations == 0 {
            found is None
        } else {
            match advanced(domain, a, (self.rollout_depth as u32) as nat).0 {
                StopView::Complete(end) => found is Some && compiles(
                    domain,
                    found->Some_0,
                    finished(end.plan),
                ),
                StopView::Failed => found is None,
                StopView::Aborted => found is None,
                StopView::Choice(f, head) => {
                    &&& exists|trees: Seq<TreeView<M::Component, P::Reward>>|
                        {
                            &&& #[trigger] is_search(
                                self.policy,
                                domain,
                                self.rollout_depth,
                                f,
                                head,
                                trees,
                            )
                            &&& trees.len() == self.iterations + 1
                            &&& returns_best(domain, trees.last().best, found)
                        }
                    &&& found matches Some(plan) ==> exists|cost: u64|
                        #[trigger] is_run(domain, a, plan, cost)
                },
            }
        }
    }

    fn search(
        &self,
        domain: &HtnDomain<M>,
        state: &PlanState<M::Component>,
    ) -> (found: Option<Plan>) {
        if self.iterations == 0 {
            return None;
        }
        let ghost a = root_frontier(*domain, state@);
        let mut fuel: u32 = self.rollout_depth as u32;
        let mut stack: Vec<usize> = Vec::new();
        stack.push(domain.root);
        let start: Frontier<M::Component> = Frontier {
            state: state.duplicate(),
            stack,
            plan: Vec::new(),
            g: 0,
        };
        assert(start@.stack =~= seq![domain.root]);
        assert(start@.plan =~= Seq::<usize>::empty());
        proof {
            lemma_leads_self(*domain, a);
            lemma_advanced_leads(*domain, a, a, fuel as nat);
        }
        let (f, head, valid) = match advance(domain, start, &mut fuel) {
            Stop::Complete(end) => {
                return Some(
                    materialize(domain, &end.plan, Vec::new(), PlanStatus::Complete, None),
                );
            },
            Stop::Failed => {
                return None;
            },
            Stop::Aborted => {
                return None;
            },
            Stop::Choice(f, head, valid) => (f, head, valid),
        };
        let ghost view = f@;
        let ghost branches = valid@;
        proof {
            lemma_valid_methods(domain.tasks@[head as int]->Compound_0, view.state);
            assert forall|k: int| 0 <= k < branches.len() implies (#[trigger] branches[k])
                < domain.tasks@[head as int]->Compound_0.methods@.len()
                && domain.tasks@[head as int]->Compound_0.methods@[branches[k] as int].valid(
                view.state,
            ) by {
                assert(branches.contains(branches[k]));
            }
        }
        let mut nodes: Vec<TreeNode<M::Component>> = Vec::new();
        nodes.push(
            TreeNode {
                at: Some((f, head)),
                untried: valid,
                children: Vec::new(),
                parent: None,
                complete: false,
                dead_end: false,
            },
        );
        let mut stats: Vec<NodeStats<P::Reward>> = Vec::new();
        let reward = self.policy.start();
        assert(call_ensures(P::start, (&self.policy,), reward));
        stats.push(NodeStats { visits: 0, reward });
        let mut best: Option<Best> = None;
        let ghost first = TreeView {
            nodes: views(nodes@),
            stats: stats@,
            best: best_view(best),
        };
        let ghost mut trees: Seq<TreeView<M::Component, P::Reward>> = seq![first];
        proof {
            assert(nodes@[0]@.children =~= Seq::<usize>::empty());
            assert(first.nodes =~= seq![nodes@[0]@]);
            assert(first.stats =~= seq![NodeStats { visits: 0, reward }]);
            assert(starts(self.policy, *domain, view, head, first));
        }
        for i in 0..self.iterations
            invariant
                domain.wf(),
                tree_ok(*domain, a, views(nodes@)),
                stats@.len() == nodes@.len(),
                best_ok(*domain, a, best_view(best)),
                trees.len() == i + 1,
                trees.last() == (TreeView {
                    nodes: views(nodes@),
                    stats: stats@,
                    best: best_view(best),
                }),
                is_search(self.policy, *domain, self.rollout_depth, view, head, trees),
        {
            iterate::<M, P>(
                &self.policy,
                domain,
                self.rollout_depth,
                &mut nodes,
                &mut stats,
                &mut best,
                Ghost(a),
            );
            proof {
                let next = TreeView { nodes: views(nodes@), stats: stats@, best: best_view(best) };
                let longer = trees.push(next);
                assert forall|k: int| 0 < k < longer.len() implies iteration(
                    self.policy,
                    *domain,
                    self.rollout_depth,
                    longer[k - 1],
                    #[trigger] longer[k],
                ) by {
                    if k < trees.len() {
                        assert(longer[k - 1] == trees[k - 1] && longer[k] == trees[k]);
                    }
                }
                trees = longer;
            }
        }
        match best {
            Some(b) => {
                let plan = materialize(domain, &b.plan, Vec::new(), PlanStatus::Complete, None);
                assert(is_run(*domain, a, plan, b.cost)) by {
                    assert(reached(*domain, a, b.plan@, b.cost));
                    assert(compiles(*domain, plan, finished(b.plan@)));
                }
                Some(plan)
            },
            None => None,
        }
    }
}

/// Whether a policy returns the same whenever it is asked the same.
pub open spec fn repeatable<P: TreePolicy>(policy: P) -> bool {
    &&& forall|r1: P::Reward, r2: P::Reward| #[trigger]
        call_ensures(P::start, (&policy,), r1) && #[trigger] call_ensures(
            P::start,
            (&policy,),
            r2,
        ) ==> r1 == r2
    &&& forall|sum: P::Reward, found: Option<u64>, r1: P::Reward, r2: P::Reward| #[trigger]
        call_ensures(P::credit, (&policy, &sum, found), r1) && #[trigger] call_ensures(
            P::credit,
            (&policy, &sum, found),
            r2,
        ) ==> r1 == r2
    &&& forall|stats: Seq<NodeStats<P::Reward>>, p: usize, live: Seq<usize>, k1: usize, k2: usize| #[trigger]
        picks(policy, stats, p, live, k1) && #[trigger] picks(policy, stats, p, live, k2) ==> k1
            == k2
}

/// Under a repeatable policy, a descent goes one way only.
proof fn lemma_one_descent<C, P: TreePolicy>(
    policy: P,
    nodes: Seq<NodeView<C>>,
    stats: Seq<NodeStats<P::Reward>>,
    a: Seq<usize>,
    b: Seq<usize>,
    k: nat,
)
    requires
        repeatable(policy),
        is_descent(policy, nodes, stats, a),
        is_descent(policy, nodes, stats, b),
        k < a.len(),
    ensures
        k < b.len(),
        a[k as int] == b[k as int],
    decreases k,
{
    if k > 0 {
        lemma_one_descent(policy, nodes, stats, a, b, (k - 1) as nat);
        let p = a[k - 1];
        let live = live_children(nodes, p as int);
        assert(descends(policy, nodes, stats, p, a[k as int]));
        if k == b.len() {
            assert(b.last() == p);
            assert(false);
        }
        assert(descends(policy, nodes, stats, p, b[k as int]));
        let k1 = choose|k1: usize| #[trigger]
            picks(policy, stats, p, live, k1) && a[k as int] == live[if k1 < live.len() {
                k1 as int
            } else {
                0
            }];
        let k2 = choose|k2: usize| #[trigger]
            picks(policy, stats, p, live, k2) && b[k as int] == live[if k2 < live.len() {
                k2 as int
            } else {
                0
            }];
        assert(k1 == k2);
    }
}

/// Under a repeatable policy, an outcome is recorded one way only.
proof fn lemma_one_record<C, P: TreePolicy>(
    policy: P,
    before: TreeView<C, P::Reward>,
    start: int,
    found: Option<u64>,
    a: TreeView<C, P::Reward>,
    b: TreeView<C, P::Reward>,
)
    requires
        repeatable(policy),
        recorded(policy, before, start, found, a),
        recorded(policy, before, start, found, b),
    ensures
        a == b,
{
    assert forall|i: int| 0 <= i < before.stats.len() implies a.stats[i] == b.stats[i] by {
        if at_or_above(before.nodes, start, i) {
            assert(credited(policy, before.stats[i], found, a.stats[i]));
            assert(credited(policy, before.stats[i], found, b.stats[i]));
        }
    }
    assert(a.stats =~= b.stats);
}

/// Under a repeatable policy, an iteration leads to one tree only.
proof fn lemma_one_iteration<M: PlanModel, P: TreePolicy>(
    policy: P,
    d: HtnDomain<M>,
    depth: usize,
    before: TreeView<M::Component, P::Reward>,
    a: TreeView<M::Component, P::Reward>,
    b: TreeView<M::Component, P::Reward>,
)
    requires
        repeatable(policy),
        iteration(policy, d, depth, before, a),
        iteration(policy, d, depth, before, b),
    ensures
        a == b,
{
    let pa = choose|path: Seq<usize>|
        {
            let p = path.last();
            let node = before.nodes[p as int];
            &&& #[trigger] is_descent(policy, before.nodes, before.stats, path)
            &&& if node.untried.len() == 0 {
                idles(policy, before, p, a)
            } else if node.dead_end || node.complete {
                a == before
            } else {
                expands(policy, d, depth, before, p, a)
            }
        };
    let pb = choose|path: Seq<usize>|
        {
            let p = path.last();
            let node = before.nodes[p as int];
            &&& #[trigger] is_descent(policy, before.nodes, before.stats, path)
            &&& if node.untried.len() == 0 {
                idles(policy, before, p, b)
            } else if node.dead_end || node.complete {
                b == before
            } else {
                expands(policy, d, depth, before, p, b)
            }
        };
    lemma_one_descent(policy, before.nodes, before.stats, pa, pb, (pa.len() - 1) as nat);
    lemma_one_descent(policy, before.nodes, before.stats, pb, pa, (pb.len() - 1) as nat);
    let p = pa.last();
    assert(pb.last() == p);
    let node = before.nodes[p as int];
    if node.untried.len() == 0 {
        let ma = choose|mid: TreeView<M::Component, P::Reward>|
            {
                &&& #[trigger] recorded(policy, before, p as int, None, mid)
                &&& if mid.nodes[p as int].dead_end || mid.nodes[p as int].complete {
                    a == mid
                } else {
                    recorded(policy, mid, p as int, None, a)
                }
            };
        let mb = choose|mid: TreeView<M::Component, P::Reward>|
            {
                &&& #[trigger] recorded(policy, before, p as int, None, mid)
                &&& if mid.nodes[p as int].dead_end || mid.nodes[p as int].complete {
                    b == mid
                } else {
                    recorded(policy, mid, p as int, None, b)
                }
            };
        lemma_one_record(policy, before, p as int, None, ma, mb);
        if !(ma.nodes[p as int].dead_end || ma.nodes[p as int].complete) {
            lemma_one_record(policy, ma, p as int, None, a, b);
        }
    } else if !(node.dead_end || node.complete) {
        lemma_one_expansion(policy, d, depth, before, p, a, b);
    }
}

/// Under a repeatable policy, committing a branch leads to one tree only.
proof fn lemma_one_expansion<M: PlanModel, P: TreePolicy>(
    policy: P,
    d: HtnDomain<M>,
    depth: usize,
    before: TreeView<M::Component, P::Reward>,
    p: usize,
    a: TreeView<M::Component, P::Reward>,
    b: TreeView<M::Component, P::Reward>,
)
    requires
        repeatable(policy),
        expands(policy, d, depth, before, p, a),
        expands(policy, d, depth, before, p, b),
    ensures
        a == b,
{
    let node = before.nodes[p as int];
    let (f, head) = node.at->Some_0;
    let (child, end) = expansion(
        d,
        f,
        head,
        node.untried[0],
        depth,
        best_cost(before.best),
        p,
    );
    let nodes = taken(before.nodes, p as int);
    let best = kept(before.best, end);
    let found = match end {
        Some(e) => Some(e.g),
        None => None,
    };
    match child {
        None => {
            lemma_one_record(
                policy,
                TreeView { nodes, best, ..before },
                p as int,
                None,
                a,
                b,
            );
        },
        Some(child) => {
            let grown = |reward: P::Reward|
                TreeView {
                    nodes: with_child(nodes, p as int, child),
                    stats: before.stats.push(NodeStats { visits: 0, reward }),
                    best,
                };
            let ra = choose|reward: P::Reward|
                {
                    &&& #[trigger] call_ensures(P::start, (&policy,), reward)
                    &&& recorded(policy, grown(reward), nodes.len() as int, found, a)
                };
            let rb = choose|reward: P::Reward|
                {
                    &&& #[trigger] call_ensures(P::start, (&policy,), reward)
                    &&& recorded(policy, grown(reward), nodes.len() as int, found, b)
                };
            assert(ra == rb);
            lemma_one_record(policy, grown(ra), nodes.len() as int, found, a, b);
        },
    }
}

proof fn lemma_one_search<M: PlanModel, P: TreePolicy>(
    policy: P,
    d: HtnDomain<M>,
    depth: usize,
    f: FrontierView<M::Component>,
    head: usize,
    a: Seq<TreeView<M::Component, P::Reward>>,
    b: Seq<TreeView<M::Component, P::Reward>>,
    k: nat,
)
    requires
        repeatable(policy),
        is_search(policy, d, depth, f, head, a),
        is_search(policy, d, depth, f, head, b),
        k < a.len(),
        k < b.len(),
    ensures
        a[k as int] == b[k as int],
    decreases k,
{
    if k == 0 {
        let ra = choose|reward: P::Reward| #[trigger]
            call_ensures(P::start, (&policy,), reward) && a[0].stats == seq![
                NodeStats { visits: 0, reward },
            ];
        let rb = choose|reward: P::Reward| #[trigger]
            call_ensures(P::start, (&policy,), reward) && b[0].stats == seq![
                NodeStats { visits: 0, reward },
            ];
        assert(ra == rb);
    } else {
        lemma_one_search(policy, d, depth, f, head, a, b, (k - 1) as nat);
        assert(iteration(policy, d, depth, a[k - 1], a[k as int]));
        assert(iteration(policy, d, depth, b[k - 1], b[k as int]));
        lemma_one_iteration(policy, d, depth, a[k - 1], a[k as int], b[k as int]);
    }
}

/// The search is deterministic: under a policy that returns the same whenever it
/// is asked the same, the same state always yields the same plan, or always none.
pub proof fn the_same_state_yields_the_same_plan<M: PlanModel, P: TreePolicy>(
    searcher: MctsSearcher<P>,
    d: HtnDomain<M>,
    s: ModelState<M>,
    found: Option<Plan>,
    again: Option<Plan>,
)
    requires
        repeatable(searcher.policy),
        searcher.may_return(d, s, found),
        searcher.may_return(d, s, again),
    ensures
        match (found, again) {
            (Some(a), Some(b)) => exists|steps: Seq<usize>| #[trigger]
                compiles(d, a, finished(steps)) && compiles(d, b, finished(steps)),
            (None, None) => true,
            _ => false,
        },
{
    let start = root_frontier(d, s);
    let stop = advanced(d, start, (searcher.rollout_depth as u32) as nat).0;
    if searcher.iterations > 0 {
        if let StopView::Choice(f, head) = stop {
            let ta = choose|trees: Seq<TreeView<M::Component, P::Reward>>|
                {
                    &&& #[trigger] is_search(
                        searcher.policy,
                        d,
                        searcher.rollout_depth,
                        f,
                        head,
                        trees,
                    )
                    &&& trees.len() == searcher.iterations + 1
                    &&& returns_best(d, trees.last().best, found)
                };
            let tb = choose|trees: Seq<TreeView<M::Component, P::Reward>>|
                {
                    &&& #[trigger] is_search(
                        searcher.policy,
                        d,
                        searcher.rollout_depth,
                        f,
                        head,
                        trees,
                    )
                    &&& trees.len() == searcher.iterations + 1
                    &&& returns_best(d, trees.last().best, again)
                };
            lemma_one_search(
                searcher.policy,
                d,
                searcher.rollout_depth,
                f,
                head,
                ta,
                tb,
                searcher.iterations as nat,
            );
        }
    }
}

/// Every plan that moves lead to can be executed step by step from the starting
/// state, leads to the state at their end, and costs what they accumulated.
pub proof fn searched_plans_are_executable<M: PlanModel>(
    d: HtnDomain<M>,
    s: ModelState<M>,
    end: FrontierView<M::Component>,
)
    requires
        d.wf(),
        s.len() == d.slots(),
        leads(d, root_frontier(d, s), end),
    ensures
        executable(d, s, end.plan),
        plan_state(d, s, end.plan, end.plan.len()) == end.state,
        plan_cost(d, s, end.plan, end.plan.len()) == end.g,
{
    let ts = choose|ts: Seq<Turn>| #[trigger] turns(d, root_frontier(d, s), ts) == Some(end);
    lemma_turns_execute(d, s, ts);
}

proof fn lemma_turns_execute<M: PlanModel>(d: HtnDomain<M>, s: ModelState<M>, ts: Seq<Turn>)
    requires
        d.wf(),
        s.len() == d.slots(),
        turns(d, root_frontier(d, s), ts) is Some,
    ensures
        ({
            let end = turns(d, root_frontier(d, s), ts)->Some_0;
            &&& executable(d, s, end.plan)
            &&& plan_state(d, s, end.plan, end.plan.len()) == end.state
            &&& plan_cost(d, s, end.plan, end.plan.len()) == end.g
            &&& frontier_ok(d, end)
        }),
    decreases ts.len(),
{
    let a = root_frontier(d, s);
    if ts.len() > 0 {
        lemma_turns_execute(d, s, ts.drop_last());
        let mid = turns(d, a, ts.drop_last())->Some_0;
        let end = turns(d, a, ts)->Some_0;
        let front = mid.stack.last();
        assert(mid.stack[mid.stack.len() - 1] < d.tasks@.len());
        assert(d.tasks@[front as int].wf(d.tasks@.len(), d.slots()));
        match d.tasks@[front as int] {
            Task::Primitive(p) => {
                crate::domain::lemma_after_len(p, mid.state);
                assert forall|k: int| 0 <= k < end.plan.len() implies {
                    &&& (#[trigger] end.plan[k]) < d.tasks@.len()
                    &&& d.tasks@[end.plan[k] as int] is Primitive
                    &&& d.tasks@[end.plan[k] as int]->Primitive_0.ready(
                        plan_state(d, s, end.plan, k as nat),
                    )
                } by {
                    lemma_plan_prefix(d, s, mid.plan, end.plan, k as nat);
                    if k < mid.plan.len() {
                        assert(end.plan[k] == mid.plan[k]);
                    }
                }
                lemma_plan_prefix(d, s, mid.plan, end.plan, mid.plan.len());
                assert(frontier_ok(d, end));
            },
            Task::Compound(c) => {
                let m = ts.last()->Choose_0;
                let popped = FrontierView { stack: mid.stack.drop_last(), ..mid };
                assert(c.methods@[m as int].wf(d.tasks@.len(), d.slots()));
                lemma_with_members_ok(d, popped, c.methods@[m as int]);
            },
            Task::Goal(_) => {},
        }
    }
}

/// Whether committing the first untried branch of node `p` comes across a
/// complete plan that ends at `end`: forced moves from the branch's members
/// finish there, or they stop at a choice point and a rollout from it, bounded by
/// the best cost so far, finishes there.
pub open spec fn comes_across<M: PlanModel, P: TreePolicy>(
    d: HtnDomain<M>,
    depth: usize,
    tree: TreeView<M::Component, P::Reward>,
    p: usize,
    end: FrontierView<M::Component>,
) -> bool {
    let node = tree.nodes[p as int];
    let (f, head) = node.at->Some_0;
    let method = d.tasks@[head as int]->Compound_0.methods@[node.untried[0] as int];
    let child = FrontierView { stack: f.stack + method.run_order().reverse(), ..f };
    match advanced(d, child, (depth as u32) as nat) {
        (StopView::Complete(e), _) => e == end,
        (StopView::Choice(next, at), left) => rolled(
            d,
            next,
            at,
            depth as nat,
            match tree.best {
                Some(b) => Some(b.cost),
                None => None,
            },
            left,
        ).0 == RolloutView::Plan(end),
        _ => false,
    }
}

/// Whether an iteration commits the first untried branch of node `p` and comes
/// across a complete plan that ends at `end`.
pub open spec fn finds<M: PlanModel, P: TreePolicy>(
    policy: P,
    d: HtnDomain<M>,
    depth: usize,
    before: TreeView<M::Component, P::Reward>,
    p: usize,
    after: TreeView<M::Component, P::Reward>,
    end: FrontierView<M::Component>,
) -> bool {
    &&& expands(policy, d, depth, before, p, after)
    &&& comes_across::<M, P>(d, depth, before, p, end)
}

/// An iteration keeps the cheaper plan: what it comes across is not cheaper than
/// the best plan afterwards, and neither is the best plan from before. The best
/// plan changes only to one that the iteration came across and that is cheaper.
pub proof fn iterations_keep_the_cheaper_plan<M: PlanModel, P: TreePolicy>(
    policy: P,
    d: HtnDomain<M>,
    depth: usize,
    before: TreeView<M::Component, P::Reward>,
    after: TreeView<M::Component, P::Reward>,
)
    requires
        iteration(policy, d, depth, before, after),
    ensures
        forall|p: usize, end: FrontierView<M::Component>| #[trigger]
            finds(policy, d, depth, before, p, after, end) ==> (after.best matches Some(b) && b.cost
                <= end.g),
        before.best matches Some(b) ==> (after.best matches Some(a) && a.cost <= b.cost),
        after.best != before.best ==> exists|p: usize, end: FrontierView<M::Component>| #[trigger]
            finds(policy, d, depth, before, p, after, end) && after.best == Some(
                BestView { cost: end.g, plan: end.plan },
            ) && (before.best matches Some(b) ==> end.g < b.cost),
{
    assert forall|p: usize, end: FrontierView<M::Component>| #[trigger]
        finds(policy, d, depth, before, p, after, end) implies (after.best matches Some(b) && b.cost
        <= end.g) by {
        lemma_expansion_found(policy, d, depth, before, p, after);
    }
    let path = choose|path: Seq<usize>|
        {
            let p = path.last();
            let node = before.nodes[p as int];
            &&& #[trigger] is_descent(policy, before.nodes, before.stats, path)
            &&& if node.untried.len() == 0 {
                idles(policy, before, p, after)
            } else if node.dead_end || node.complete {
                after == before
            } else {
                expands(policy, d, depth, before, p, after)
            }
        };
    let p = path.last();
    let node = before.nodes[p as int];
    if node.untried.len() > 0 && !node.dead_end && !node.complete {
        lemma_expansion_found(policy, d, depth, before, p, after);
        let (f, head) = node.at->Some_0;
        let found = expansion(d, f, head, node.untried[0], depth, best_cost(before.best), p).1;
        if after.best != before.best {
            assert(finds(policy, d, depth, before, p, after, found->Some_0));
        }
    }
}

proof fn lemma_expansion_found<M: PlanModel, P: TreePolicy>(
    policy: P,
    d: HtnDomain<M>,
    depth: usize,
    before: TreeView<M::Component, P::Reward>,
    p: usize,
    after: TreeView<M::Component, P::Reward>,
)
    requires
        expands(policy, d, depth, before, p, after),
    ensures
        ({
            let node = before.nodes[p as int];
            let (f, head) = node.at->Some_0;
            let found = expansion(d, f, head, node.untried[0], depth, best_cost(before.best), p).1;
            &&& after.best == kept(before.best, found)
            &&& forall|end: FrontierView<M::Component>| #[trigger]
                comes_across::<M, P>(d, depth, before, p, end) <==> found == Some(end)
        }),
{
}

/// The best plan of a search is the cheapest that it came across: no iteration
/// found a cheaper one, and some iteration found this one. Without a best plan no
/// iteration found any.
#[verifier::rlimit(60)]
#[verifier::spinoff_prover]
pub proof fn the_best_plan_is_the_cheapest_found<M: PlanModel, P: TreePolicy>(
    policy: P,
    d: HtnDomain<M>,
    depth: usize,
    f: FrontierView<M::Component>,
    head: usize,
    trees: Seq<TreeView<M::Component, P::Reward>>,
)
    requires
        is_search(policy, d, depth, f, head, trees),
    ensures
        forall|i: int, p: usize, end: FrontierView<M::Component>|
            0 <= i < trees.len() - 1 && #[trigger] finds(
                policy,
                d,
                depth,
                trees[i],
                p,
                trees[i + 1],
                end,
            ) ==> (trees.last().best matches Some(b) && b.cost <= end.g),
        trees.last().best matches Some(b) ==> exists|
            i: int,
            p: usize,
            end: FrontierView<M::Component>,
        |
            0 <= i < trees.len() - 1 && #[trigger] finds(
                policy,
                d,
                depth,
                trees[i],
                p,
                trees[i + 1],
                end,
            ) && end.g == b.cost && end.plan == b.plan,
    decreases trees.len(),
{
    let n = trees.len() - 1;
    if n > 0 {
        let front = trees.drop_last();
        assert(is_search(policy, d, depth, f, head, front)) by {
            assert forall|i: int| 0 < i < front.len() implies iteration(
                policy,
                d,
                depth,
                front[i - 1],
                #[trigger] front[i],
            ) by {
                assert(trees[i] == front[i] && trees[i - 1] == front[i - 1]);
            }
        }
        the_best_plan_is_the_cheapest_found(policy, d, depth, f, head, front);
        assert(front.last() == trees[n - 1]);
        assert(iteration(policy, d, depth, trees[n - 1], trees[n]));
        iterations_keep_the_cheaper_plan(policy, d, depth, trees[n - 1], trees[n]);
        assert forall|i: int, p: usize, end: FrontierView<M::Component>|
            0 <= i < trees.len() - 1 && #[trigger] finds(
                policy,
                d,
                depth,
                trees[i],
                p,
                trees[i + 1],
                end,
            ) implies (trees.last().best matches Some(b) && b.cost <= end.g) by {
            if i < n - 1 {
                assert(finds(policy, d, depth, front[i], p, front[i + 1], end));
            }
        }
        if let Some(b) = trees.last().best {
            if trees[n].best == trees[n - 1].best {
                let (i, p, end) = choose|i: int, p: usize, end: FrontierView<M::Component>|
                    0 <= i < front.len() - 1 && #[trigger] finds(
                        policy,
                        d,
                        depth,
                        front[i],
                        p,
                        front[i + 1],
                        end,
                    ) && end.g == b.cost && end.plan == b.plan;
                assert(finds(policy, d, depth, trees[i], p, trees[i + 1], end));
            } else {
                let (p, end) = choose|p: usize, end: FrontierView<M::Component>| #[trigger]
                    finds(policy, d, depth, trees[n - 1], p, trees[n], end) && trees[n].best == Some(
                        BestView { cost: end.g, plan: end.plan },
                    ) && (trees[n - 1].best matches Some(b) ==> end.g < b.cost);
                assert(finds(policy, d, depth, trees[n - 1], p, trees[n - 1 + 1], end));
            }
        }
    }
}

proof fn lemma_turns_front<M: PlanModel>(
    d: HtnDomain<M>,
    f: FrontierView<M::Component>,
    ts: Seq<Turn>,
)
    requires
        ts.len() > 0,
    ensures
        turns(d, f, ts) == (match turn(d, f, ts[0]) {
            Some(next) => turns(d, next, ts.skip(1)),
            None => None,
        }),
    decreases ts.len(),
{
    if ts.len() == 1 {
        assert(ts.drop_last() =~= Seq::<Turn>::empty());
        assert(ts.skip(1) =~= Seq::<Turn>::empty());
        assert(turns(d, f, ts.drop_last()) == Some(f));
    } else {
        lemma_turns_front(d, f, ts.drop_last());
        assert(ts.drop_last()[0] == ts[0]);
        assert(ts.drop_last().skip(1) =~= ts.skip(1).drop_last());
        assert(ts.skip(1).last() == ts.last());
    }
}

/// How many of the moves take a unit of budget: all but those that skip a goal.
pub open spec fn units(ts: Seq<Turn>) -> nat
    decreases ts.len(),
{
    if ts.len() == 0 {
        0
    } else {
        units(ts.drop_last()) + if ts.last() is Skip {
            0nat
        } else {
            1nat
        }
    }
}

proof fn lemma_units_front(t: Turn, ts: Seq<Turn>)
    ensures
        units(seq![t] + ts) == units(ts) + if t is Skip {
            0nat
        } else {
            1nat
        },
    decreases ts.len(),
{
    let all = seq![t] + ts;
    if ts.len() == 0 {
        assert(all.drop_last() =~= Seq::<Turn>::empty());
        assert(units(all.drop_last()) == 0);
    } else {
        lemma_units_front(t, ts.drop_last());
        assert(all.drop_last() =~= seq![t] + ts.drop_last());
        assert(all.last() == ts.last());
    }
}

/// Whether moves from a frontier finish a plan at `end`.
pub open spec fn completes<M: PlanModel>(
    d: HtnDomain<M>,
    f: FrontierView<M::Component>,
    end: FrontierView<M::Component>,
) -> bool {
    leads(d, f, end) && end.stack.len() == 0
}

proof fn lemma_completes_by<M: PlanModel>(
    d: HtnDomain<M>,
    f: FrontierView<M::Component>,
    end: FrontierView<M::Component>,
) -> (t: Turn)
    requires
        completes(d, f, end),
        f.stack.len() > 0,
    ensures
        turn(d, f, t) is Some,
        completes(d, turn(d, f, t)->Some_0, end),
{
    let ts = choose|ts: Seq<Turn>| #[trigger] turns(d, f, ts) == Some(end);
    assert(ts.len() > 0);
    lemma_turns_front(d, f, ts);
    assert(turns(d, turn(d, f, ts[0])->Some_0, ts.skip(1)) == Some(end));
    ts[0]
}

proof fn lemma_more_turns<M: PlanModel>(
    d: HtnDomain<M>,
    f: FrontierView<M::Component>,
    t: Turn,
    ts: Seq<Turn>,
)
    requires
        turn(d, f, t) is Some,
    ensures
        turns(d, f, seq![t] + ts) == turns(d, turn(d, f, t)->Some_0, ts),
        units(seq![t] + ts) == units(ts) + if t is Skip {
            0nat
        } else {
            1nat
        },
{
    let all = seq![t] + ts;
    lemma_turns_front(d, f, all);
    assert(all.skip(1) =~= ts);
    lemma_units_front(t, ts);
}

/// Forced moves lose nothing. Advancing makes the moves `ts`, one unit of budget
/// each but for skipped goals. Where it fails, no moves finish a plan; where it
/// finishes, no moves finish another one; where it stops at a choice, two or more
/// branches apply, and all that moves could finish before they can finish from
/// there; and it aborts only on an empty budget.
pub proof fn forced_moves_lose_nothing<M: PlanModel>(
    d: HtnDomain<M>,
    f: FrontierView<M::Component>,
    fuel: nat,
) -> (ts: Seq<Turn>)
    requires
        d.wf(),
        frontier_ok(d, f),
    ensures
        turns(d, f, ts) is Some,
        units(ts) + advanced(d, f, fuel).1 == fuel,
        match advanced(d, f, fuel).0 {
            StopView::Complete(e) => {
                &&& turns(d, f, ts) == Some(e)
                &&& e.stack.len() == 0
                &&& forall|end: FrontierView<M::Component>| #[trigger]
                    completes(d, f, end) ==> end == e
            },
            StopView::Failed => forall|end: FrontierView<M::Component>|
                !(#[trigger] completes(d, f, end)),
            StopView::Aborted => advanced(d, f, fuel).1 == 0,
            StopView::Choice(next, head) => {
                let at = FrontierView { stack: next.stack.push(head), ..next };
                &&& turns(d, f, ts) == Some(at)
                &&& frontier_ok(d, next)
                &&& head < d.tasks@.len()
                &&& d.tasks@[head as int] is Compound
                &&& exists|i: int, j: int|
                    0 <= i < j < d.tasks@[head as int]->Compound_0.methods@.len() && (
                    #[trigger] d.tasks@[head as int]->Compound_0.methods@[i]).valid(next.state) && (
                    #[trigger] d.tasks@[head as int]->Compound_0.methods@[j]).valid(next.state)
                &&& forall|end: FrontierView<M::Component>| #[trigger]
                    completes(d, f, end) ==> completes(d, at, end)
            },
        },
    decreases fuel, f.stack.len(),
{
    let none = Seq::<Turn>::empty();
    assert(turns(d, f, none) == Some(f));
    if f.stack.len() == 0 {
        assert forall|end: FrontierView<M::Component>| #[trigger] completes(d, f, end) implies end
            == f by {
            let ts = choose|ts: Seq<Turn>| #[trigger] turns(d, f, ts) == Some(end);
            if ts.len() > 0 {
                lemma_turns_front(d, f, ts);
            }
        }
        none
    } else {
        let front = f.stack.last();
        let rest = f.stack.drop_last();
        assert(f.stack[f.stack.len() - 1] < d.tasks@.len());
        assert(d.tasks@[front as int].wf(d.tasks@.len(), d.slots()));
        let popped = FrontierView { stack: rest, ..f };
        assert(frontier_ok(d, popped));
        match d.tasks@[front as int] {
            Task::Primitive(p) => {
                assert forall|end: FrontierView<M::Component>| #[trigger]
                    completes(d, f, end) implies p.ready(f.state) && completes(
                    d,
                    turn(d, f, Turn::Run)->Some_0,
                    end,
                ) by {
                    let t = lemma_completes_by(d, f, end);
                }
                if p.ready(f.state) && fuel > 0 {
                    let next = turn(d, f, Turn::Run)->Some_0;
                    crate::domain::lemma_after_len(p, f.state);
                    assert(frontier_ok(d, next));
                    let ts = forced_moves_lose_nothing(d, next, (fuel - 1) as nat);
                    lemma_more_turns(d, f, Turn::Run, ts);
                    seq![Turn::Run] + ts
                } else {
                    none
                }
            },
            Task::Compound(c) => {
                let valid = valid_methods(c, f.state);
                lemma_valid_methods(c, f.state);
                if valid.len() == 0 {
                    assert forall|end: FrontierView<M::Component>| !(#[trigger] completes(d, f, end)) by {
                        if completes(d, f, end) {
                            let t = lemma_completes_by(d, f, end);
                            assert(valid.contains(t->Choose_0 as u32));
                        }
                    }
                    none
                } else if valid.len() > 1 {
                    assert(rest.push(front) =~= f.stack);
                    assert((FrontierView { stack: rest.push(front), ..popped }) == f);
                    let (a, b) = (valid[0] as int, valid[1] as int);
                    assert(valid.contains(valid[0]) && valid.contains(valid[1]));
                    assert(valid[0] != valid[1]);
                    let methods = d.tasks@[front as int]->Compound_0.methods@;
                    if a < b {
                        assert(methods[a].valid(f.state) && methods[b].valid(f.state));
                    } else {
                        assert(methods[b].valid(f.state) && methods[a].valid(f.state));
                    }
                    none
                } else {
                    let only = Turn::Choose(valid[0] as nat);
                    assert(valid.contains(valid[0]));
                    assert forall|end: FrontierView<M::Component>| #[trigger]
                        completes(d, f, end) implies completes(
                        d,
                        turn(d, f, only)->Some_0,
                        end,
                    ) by {
                        let t = lemma_completes_by(d, f, end);
                        let m = t->Choose_0;
                        assert(valid.contains(m as u32));
                        let j = valid.index_of(m as u32);
                        assert(j == 0);
                    }
                    if fuel > 0 {
                        let m = c.methods@[valid[0] as int];
                        assert(m.wf(d.tasks@.len(), d.slots()));
                        lemma_with_members_ok(d, popped, m);
                        let next = turn(d, f, only)->Some_0;
                        let ts = forced_moves_lose_nothing(d, next, (fuel - 1) as nat);
                        lemma_more_turns(d, f, only, ts);
                        seq![only] + ts
                    } else {
                        none
                    }
                }
            },
            Task::Goal(_) => {
                assert forall|end: FrontierView<M::Component>| #[trigger]
                    completes(d, f, end) implies completes(
                    d,
                    turn(d, f, Turn::Skip)->Some_0,
                    end,
                ) by {
                    let t = lemma_completes_by(d, f, end);
                }
                let ts = forced_moves_lose_nothing(d, popped, fuel);
                lemma_more_turns(d, f, Turn::Skip, ts);
                seq![Turn::Skip] + ts
            },
        }
    }
}

/// Whether moves lead from a frontier to one that costs as much as the bound.
pub open spec fn grows_costly<M: PlanModel>(
    d: HtnDomain<M>,
    a: FrontierView<M::Component>,
    bound: Option<u64>,
) -> bool {
    exists|x: FrontierView<M::Component>| #[trigger]
        leads(d, a, x) && (bound matches Some(b) && x.g >= b)
}

proof fn lemma_leads_on<M: PlanModel>(
    d: HtnDomain<M>,
    a: FrontierView<M::Component>,
    b: FrontierView<M::Component>,
    c: FrontierView<M::Component>,
)
    requires
        leads(d, a, b),
        leads(d, b, c),
    ensures
        leads(d, a, c),
{
    let us = choose|ts: Seq<Turn>| #[trigger] turns(d, b, ts) == Some(c);
    lemma_leads_along(d, a, b, us);
}

proof fn lemma_leads_along<M: PlanModel>(
    d: HtnDomain<M>,
    a: FrontierView<M::Component>,
    b: FrontierView<M::Component>,
    us: Seq<Turn>,
)
    requires
        leads(d, a, b),
        turns(d, b, us) is Some,
    ensures
        leads(d, a, turns(d, b, us)->Some_0),
    decreases us.len(),
{
    if us.len() > 0 {
        lemma_leads_along(d, a, b, us.drop_last());
        lemma_turns_push(d, a, turns(d, b, us.drop_last())->Some_0, us.last());
    }
}

/// A rollout proves its dead ends: where it reports one, no moves from the choice
/// point finish a plan. It gives up without a result only on an empty budget, or
/// on frontiers that lie too deep or cost as much as the bound: with more levels
/// than budget, only on an empty budget or where moves lead to such a cost.
pub proof fn dead_ends_are_proven<M: PlanModel>(
    d: HtnDomain<M>,
    f: FrontierView<M::Component>,
    head: usize,
    depth: nat,
    bound: Option<u64>,
    fuel: nat,
)
    requires
        d.wf(),
        frontier_ok(d, f),
        head < d.tasks@.len(),
        d.tasks@[head as int] is Compound,
    ensures
        rolled(d, f, head, depth, bound, fuel).1 <= fuel,
        rolled(d, f, head, depth, bound, fuel).0 is DeadEnd ==> forall|
            end: FrontierView<M::Component>,
        |
            !(#[trigger] completes(
                d,
                (FrontierView { stack: f.stack.push(head), ..f }),
                end,
            )),
        rolled(d, f, head, depth, bound, fuel).0 is Unknown && depth > fuel ==> rolled(
            d,
            f,
            head,
            depth,
            bound,
            fuel,
        ).1 == 0 || grows_costly(d, (FrontierView { stack: f.stack.push(head), ..f }), bound),
    decreases depth, d.tasks@[head as int]->Compound_0.methods@.len() + 1,
{
    let at = FrontierView { stack: f.stack.push(head), ..f };
    lemma_leads_self(d, at);
    if !((bound matches Some(b) && f.g >= b) || depth == 0 || fuel == 0) {
        lemma_rolled_from_proves(d, f, head, 0, depth, bound, fuel);
        if rolled(d, f, head, depth, bound, fuel).0 is DeadEnd {
            assert(at.stack.drop_last() =~= f.stack);
            assert forall|end: FrontierView<M::Component>| !(#[trigger] completes(d, at, end)) by {
                if completes(d, at, end) {
                    let t = lemma_completes_by(d, at, end);
                    let m = t->Choose_0;
                    assert(0 <= m < d.tasks@[head as int]->Compound_0.methods@.len());
                    assert(opens(d, f, head, m as int, end));
                }
            }
        }
    }
}

/// Whether moves finish a plan at `end` once the branch `m` of a choice point is
/// committed.
spec fn opens<M: PlanModel>(
    d: HtnDomain<M>,
    f: FrontierView<M::Component>,
    head: usize,
    m: int,
    end: FrontierView<M::Component>,
) -> bool {
    let method = d.tasks@[head as int]->Compound_0.methods@[m];
    method.valid(f.state) && completes(
        d,
        FrontierView { stack: with_members(f.stack, method), ..f },
        end,
    )
}

proof fn lemma_rolled_from_proves<M: PlanModel>(
    d: HtnDomain<M>,
    f: FrontierView<M::Component>,
    head: usize,
    i: nat,
    depth: nat,
    bound: Option<u64>,
    fuel: nat,
)
    requires
        d.wf(),
        frontier_ok(d, f),
        head < d.tasks@.len(),
        d.tasks@[head as int] is Compound,
        depth > 0,
    ensures
        rolled_from(d, f, head, i, depth, bound, fuel).1 <= fuel,
        rolled_from(d, f, head, i, depth, bound, fuel).0 is DeadEnd ==> forall|
            m: int,
            end: FrontierView<M::Component>,
        |
            i <= m < d.tasks@[head as int]->Compound_0.methods@.len() ==> !(#[trigger] opens(
                d,
                f,
                head,
                m,
                end,
            )),
        rolled_from(d, f, head, i, depth, bound, fuel).0 is Unknown && depth > fuel ==> rolled_from(
            d,
            f,
            head,
            i,
            depth,
            bound,
            fuel,
        ).1 == 0 || grows_costly(d, (FrontierView { stack: f.stack.push(head), ..f }), bound),
    decreases depth, d.tasks@[head as int]->Compound_0.methods@.len() - i,
{
    let c = d.tasks@[head as int]->Compound_0;
    if i < c.methods@.len() {
        if !c.methods@[i as int].valid(f.state) {
            lemma_rolled_from_proves(d, f, head, i + 1, depth, bound, fuel);
        } else if fuel > 0 && depth > 0 {
            let m = c.methods@[i as int];
            let child = FrontierView { stack: with_members(f.stack, m), ..f };
            assert(d.tasks@[head as int].wf(d.tasks@.len(), d.slots()));
            assert(m.wf(d.tasks@.len(), d.slots()));
            lemma_with_members_ok(d, f, m);
            let ts = forced_moves_lose_nothing(d, child, (fuel - 1) as nat);
            let (stop, left) = advanced(d, child, (fuel - 1) as nat);
            match stop {
                StopView::Failed => {
                    lemma_rolled_from_proves(d, f, head, i + 1, depth, bound, left);
                },
                StopView::Choice(next, head2) => {
                    dead_ends_are_proven(d, next, head2, (depth - 1) as nat, bound, left);
                    let (r, left2) = rolled(d, next, head2, (depth - 1) as nat, bound, left);
                    let at = FrontierView { stack: f.stack.push(head), ..f };
                    let deeper = FrontierView { stack: next.stack.push(head2), ..next };
                    if grows_costly(d, deeper, bound) {
                        let x = choose|x: FrontierView<M::Component>| #[trigger]
                            leads(d, deeper, x) && (bound matches Some(b) && x.g >= b);
                        assert(at.stack.drop_last() =~= f.stack);
                        lemma_leads_self(d, at);
                        lemma_turns_push(d, at, at, Turn::Choose(i));
                        assert(leads(d, child, deeper));
                        lemma_leads_on(d, at, child, deeper);
                        lemma_leads_on(d, at, deeper, x);
                    }
                    if r is DeadEnd {
                        lemma_rolled_from_proves(d, f, head, i + 1, depth, bound, left2);
                    }
                },
                _ => {},
            }
        }
    }
}

/// The search returns the cheapest plan that its iterations come across, and
/// nothing only where they come across none: there are as many iterations as
/// asked for, and what they found is stated of each.
pub proof fn the_search_returns_the_cheapest_found<M: PlanModel, P: TreePolicy>(
    searcher: MctsSearcher<P>,
    d: HtnDomain<M>,
    s: ModelState<M>,
    found: Option<Plan>,
    f: FrontierView<M::Component>,
    head: usize,
) -> (trees: Seq<TreeView<M::Component, P::Reward>>)
    requires
        searcher.may_return(d, s, found),
        searcher.iterations > 0,
        advanced(d, root_frontier(d, s), (searcher.rollout_depth as u32) as nat).0
            == StopView::<M::Component>::Choice(f, head),
    ensures
        is_search(searcher.policy, d, searcher.rollout_depth, f, head, trees),
        trees.len() == searcher.iterations + 1,
        found is None ==> forall|i: int, p: usize, end: FrontierView<M::Component>|
            0 <= i < trees.len() - 1 ==> !(#[trigger] finds(
                searcher.policy,
                d,
                searcher.rollout_depth,
                trees[i],
                p,
                trees[i + 1],
                end,
            )),
        found matches Some(plan) ==> exists|i: int, p: usize, end: FrontierView<M::Component>|
            {
                &&& 0 <= i < trees.len() - 1
                &&& #[trigger] finds(
                    searcher.policy,
                    d,
                    searcher.rollout_depth,
                    trees[i],
                    p,
                    trees[i + 1],
                    end,
                )
                &&& compiles(d, plan, finished(end.plan))
                &&& forall|j: int, q: usize, other: FrontierView<M::Component>|
                    0 <= j < trees.len() - 1 && #[trigger] finds(
                        searcher.policy,
                        d,
                        searcher.rollout_depth,
                        trees[j],
                        q,
                        trees[j + 1],
                        other,
                    ) ==> end.g <= other.g
            },
{
    let trees = choose|trees: Seq<TreeView<M::Component, P::Reward>>|
        {
            &&& #[trigger] is_search(
                searcher.policy,
                d,
                searcher.rollout_depth,
                f,
                head,
                trees,
            )
            &&& trees.len() == searcher.iterations + 1
            &&& returns_best(d, trees.last().best, found)
        };
    the_best_plan_is_the_cheapest_found(
        searcher.policy,
        d,
        searcher.rollout_depth,
        f,
        head,
        trees,
    );
    trees
}

/// A live child is a child of the node that is neither closed nor complete, and
/// every such child is live.
pub proof fn live_children_are_open<C>(nodes: Seq<NodeView<C>>, p: int, k: nat, c: usize)
    requires
        k <= nodes[p].children.len(),
    ensures
        live_below(nodes, p, k).contains(c) <==> !nodes[c as int].dead_end
            && !nodes[c as int].complete && exists|i: int|
            0 <= i < k && #[trigger] nodes[p].children[i] == c,
    decreases k,
{
    if k > 0 {
        live_children_are_open(nodes, p, (k - 1) as nat, c);
        let before = live_below(nodes, p, (k - 1) as nat);
        let now = live_below(nodes, p, k);
        let last = nodes[p].children[k - 1];
        if before.contains(c) {
            let i = before.index_of(c);
            assert(now[i] == c);
        }
        if now.contains(c) {
            let i = now.index_of(c);
            if i < before.len() {
                assert(before[i] == c);
            }
        }
        if c == last && !nodes[c as int].dead_end && !nodes[c as int].complete {
            assert(now[before.len() as int] == c);
        }
    }
}

/// An iteration that commits an untried branch of a node takes the first one off
/// its list, and adds the child that it leads to, if the budget allows one: its
/// branches are those that apply there, and its parent is the node. Every other
/// node stays where it is, with its branches and children.
pub proof fn a_committed_branch_grows_the_tree<M: PlanModel, P: TreePolicy>(
    policy: P,
    d: HtnDomain<M>,
    depth: usize,
    before: TreeView<M::Component, P::Reward>,
    p: usize,
    after: TreeView<M::Component, P::Reward>,
)
    requires
        expands(policy, d, depth, before, p, after),
        p < before.nodes.len() < usize::MAX,
        before.nodes[p as int].untried.len() > 0,
        before.nodes[p as int].at is Some,
        before.stats.len() == before.nodes.len(),
    ensures
        ({
            let node = before.nodes[p as int];
            let now = after.nodes[p as int];
            let (f, head) = node.at->Some_0;
            let method = d.tasks@[head as int]->Compound_0.methods@[node.untried[0] as int];
            let child = FrontierView { stack: f.stack + method.run_order().reverse(), ..f };
            let stop = advanced(d, child, (depth as u32) as nat).0;
            let n = before.nodes.len() as int;
            &&& seq![node.untried[0]] + now.untried == node.untried
            &&& now.at == node.at
            &&& now.parent == node.parent
            &&& forall|i: int|
                0 <= i < before.nodes.len() && i != p ==> {
                    &&& (#[trigger] after.nodes[i]).at == before.nodes[i].at
                    &&& after.nodes[i].untried == before.nodes[i].untried
                    &&& after.nodes[i].children == before.nodes[i].children
                    &&& after.nodes[i].parent == before.nodes[i].parent
                }
            &&& after.stats.len() == after.nodes.len()
            &&& match stop {
                StopView::Aborted => after.nodes.len() == n && now.children == node.children,
                StopView::Complete(_) => {
                    &&& after.nodes.len() == n + 1
                    &&& now.children == node.children.push(n as usize)
                    &&& after.nodes[n].parent == Some(p)
                    &&& after.nodes[n].complete
                    &&& after.nodes[n].untried.len() == 0
                },
                StopView::Failed => {
                    &&& after.nodes.len() == n + 1
                    &&& now.children == node.children.push(n as usize)
                    &&& after.nodes[n].parent == Some(p)
                    &&& !after.nodes[n].complete
                    &&& after.nodes[n].dead_end
                    &&& after.nodes[n].untried.len() == 0
                },
                StopView::Choice(next, at) => {
                    &&& after.nodes.len() == n + 1
                    &&& now.children == node.children.push(n as usize)
                    &&& after.nodes[n].parent == Some(p)
                    &&& !after.nodes[n].complete
                    &&& after.nodes[n].at == Some((next, at))
                    &&& after.nodes[n].untried == valid_methods(
                        d.tasks@[at as int]->Compound_0,
                        next.state,
                    )
                },
            }
        }),
{
    let node = before.nodes[p as int];
    assert(seq![node.untried[0]] + node.untried.skip(1) =~= node.untried);
    let (f, head) = node.at->Some_0;
    let (child, end) = expansion(d, f, head, node.untried[0], depth, best_cost(before.best), p);
    let grown = with_child(taken(before.nodes, p as int), p as int, child->Some_0);
    if child is Some && child->Some_0.dead_end {
        lemma_closing(grown, closed_nodes(grown), before.nodes.len() as int);
    }
}

proof fn lemma_closing<C>(nodes: Seq<NodeView<C>>, closed: Seq<bool>, i: int)
    requires
        0 <= i < nodes.len(),
        closed.len() == nodes.len(),
    ensures
        closed_up(nodes, closed, i).len() == closed.len(),
        forall|j: int|
            0 <= j < closed.len() && closed[j] ==> #[trigger] closed_up(nodes, closed, i)[j],
        exhausted(nodes, closed, i) ==> closed_up(nodes, closed, i)[i],
        forall|j: int|
            0 <= j < closed.len() && !closed[j] && #[trigger] closed_up(nodes, closed, i)[j]
                ==> !nodes[j].complete && nodes[j].untried.len() == 0 && forall|k: int|
                0 <= k < nodes[j].children.len() && nodes[j].children[k] < nodes.len()
                    ==> closed_up(nodes, closed, i)[#[trigger] nodes[j].children[k] as int],
    decreases i,
{
    let next = if exhausted(nodes, closed, i) {
        closed.update(i, true)
    } else {
        closed
    };
    if let Some(p) = nodes[i].parent {
        if p < i {
            lemma_closing(nodes, next, p as int);
            let last = closed_up(nodes, closed, i);
            assert forall|j: int| 0 <= j < closed.len() && closed[j] implies #[trigger] last[j] by {
                assert(next[j]);
            }
            assert forall|j: int| 0 <= j < closed.len() && !closed[j] && #[trigger] last[j] implies {
                &&& !nodes[j].complete
                &&& nodes[j].untried.len() == 0
                &&& forall|k: int|
                    0 <= k < nodes[j].children.len() && nodes[j].children[k] < nodes.len()
                        ==> last[#[trigger] nodes[j].children[k] as int]
            } by {
                if next[j] {
                    assert(j == i);
                    assert forall|k: int|
                        0 <= k < nodes[j].children.len() && nodes[j].children[k]
                            < nodes.len() implies last[#[trigger] nodes[j].children[k] as int] by {
                        assert(closed[nodes[j].children[k] as int]);
                        assert(next[nodes[j].children[k] as int]);
                    }
                }
            }
        }
    }
}

/// Recording an outcome closes dead ends only: a closed node stays closed, and
/// one that is newly closed is not complete, has no untried branch, and has no
/// child that is open. The node where the iteration ended is closed if that holds
/// of it. The node and its parents count one visit more, and the nodes behind it
/// keep their counts.
pub proof fn recording_closes_dead_ends_only<C, P: TreePolicy>(
    policy: P,
    before: TreeView<C, P::Reward>,
    start: int,
    found: Option<u64>,
    after: TreeView<C, P::Reward>,
)
    requires
        recorded(policy, before, start, found, after),
        0 <= start < before.nodes.len(),
        before.stats.len() == before.nodes.len(),
    ensures
        after.nodes.len() == before.nodes.len(),
        forall|i: int|
            0 <= i < before.nodes.len() && before.nodes[i].dead_end ==> (
            #[trigger] after.nodes[i]).dead_end,
        forall|i: int|
            0 <= i < before.nodes.len() && !before.nodes[i].dead_end && (
            #[trigger] after.nodes[i]).dead_end ==> !before.nodes[i].complete
                && before.nodes[i].untried.len() == 0 && forall|k: int|
                0 <= k < before.nodes[i].children.len() && before.nodes[i].children[k]
                    < before.nodes.len()
                    ==> after.nodes[#[trigger] before.nodes[i].children[k] as int].dead_end,
        (!before.nodes[start].complete && before.nodes[start].untried.len() == 0 && forall|k: int|
            0 <= k < before.nodes[start].children.len() ==> #[trigger] before.nodes[start].children[k]
                < before.nodes.len()
                && before.nodes[before.nodes[start].children[k] as int].dead_end)
            ==> after.nodes[start].dead_end,
        before.stats[start].visits < u64::MAX ==> after.stats[start].visits
            == before.stats[start].visits + 1,
        before.nodes[start].parent matches Some(p) ==> p < start && before.stats[p as int].visits
            < u64::MAX ==> after.stats[p as int].visits == before.stats[p as int].visits + 1,
        forall|i: int|
            start < i < before.stats.len() ==> #[trigger] after.stats[i] == before.stats[i],
{
    let closed = closed_nodes(before.nodes);
    lemma_closing(before.nodes, closed, start);
    let last = closed_up(before.nodes, closed, start);
    assert(at_or_above(before.nodes, start, start));
    assert(credited(policy, before.stats[start], found, after.stats[start]));
    if let Some(p) = before.nodes[start].parent {
        if p < start {
            assert(at_or_above(before.nodes, p as int, p as int));
            assert(at_or_above(before.nodes, start, p as int));
            assert(credited(policy, before.stats[p as int], found, after.stats[p as int]));
        }
    }
    assert forall|i: int| start < i < before.stats.len() implies #[trigger] after.stats[i]
        == before.stats[i] by {
        if at_or_above(before.nodes, start, i) {
            lemma_above_below(before.nodes, start, i);
        }
    }
    assert forall|i: int|
        0 <= i < before.nodes.len() && !before.nodes[i].dead_end && (
        #[trigger] after.nodes[i]).dead_end implies !before.nodes[i].complete
        && before.nodes[i].untried.len() == 0 && forall|k: int|
        0 <= k < before.nodes[i].children.len() && before.nodes[i].children[k]
            < before.nodes.len()
            ==> after.nodes[#[trigger] before.nodes[i].children[k] as int].dead_end by {
        assert(last[i]);
        assert(!closed[i]);
    }
    if !before.nodes[start].complete && before.nodes[start].untried.len() == 0 && forall|k: int|
        0 <= k < before.nodes[start].children.len() ==> #[trigger] before.nodes[start].children[k]
            < before.nodes.len() && before.nodes[before.nodes[start].children[k] as int].dead_end {
        assert(exhausted(before.nodes, closed, start)) by {
            assert forall|k: int|
                0 <= k < before.nodes[start].children.len() implies closed[#[trigger] before.nodes[start].children[k] as int] by {
                assert(before.nodes[start].children[k] < before.nodes.len());
            }
        }
    }
}

} // verus!
