//! What an answer of the search is worth: the plan it compiles is a run of the
//! network from the starting state.

use crate::domain::{first_valid_is_the_least, HtnDomain, Task};
use crate::model::{ModelState, PlanModel};
use crate::order::SubtaskOrder;
use crate::planner::{answer, searched, start_queue, PlanStatus, ResumeStep};
use crate::ranking::{ranked_methods, ranking_keeps_every_valid_branch};
use crate::refinement::{
    has_order, known_work, lemma_members_work, lemma_next_known, lemma_play_push, method_work,
    methods_of, play, steps_of, Move, Position,
};
use crate::search::{
    after_failure, candidate, child_of, cost_sum, event, explore, foreseen, frame_of,
    lemma_explore_left, lemma_passed_left, lemma_pick_left, lemma_rejected_left, members,
    members_at, method_base, next_position, passed_over, pick, positions, prefix_of, priced_out,
    refused, rejected, restored, run_primitive, streak_of, tier_of, traced, work_of, FrameView,
    Incumbent, Node, Outcome, Prefix, Progress, SearchConfig, Step, Verdict,
};
use crate::selection::{DecompositionTrace, TraceOutcome};
use vstd::prelude::*;

verus! {

/// The state that the first `k` steps of a plan lead to.
pub open spec fn plan_state<M: PlanModel>(
    d: HtnDomain<M>,
    s: ModelState<M>,
    plan: Seq<usize>,
    k: nat,
) -> ModelState<M>
    decreases k,
{
    if k == 0 {
        s
    } else {
        d.tasks@[plan[k - 1] as int]->Primitive_0.after(plan_state(d, s, plan, (k - 1) as nat))
    }
}

/// What the first `k` steps of a plan cost.
pub open spec fn plan_cost<M: PlanModel>(
    d: HtnDomain<M>,
    s: ModelState<M>,
    plan: Seq<usize>,
    k: nat,
) -> u64
    decreases k,
{
    if k == 0 {
        0
    } else {
        cost_sum(
            plan_cost(d, s, plan, (k - 1) as nat),
            d.tasks@[plan[k - 1] as int]->Primitive_0.step_cost(
                plan_state(d, s, plan, (k - 1) as nat),
            ),
        )
    }
}

/// Whether every step of a plan is a primitive task whose preconditions hold in
/// the state that the steps before it lead to.
pub open spec fn executable<M: PlanModel>(
    d: HtnDomain<M>,
    s: ModelState<M>,
    plan: Seq<usize>,
) -> bool {
    forall|k: int|
        0 <= k < plan.len() ==> {
            &&& (#[trigger] plan[k]) < d.tasks@.len()
            &&& d.tasks@[plan[k] as int] is Primitive
            &&& d.tasks@[plan[k] as int]->Primitive_0.ready(plan_state(d, s, plan, k as nat))
        }
}

pub proof fn lemma_plan_prefix<M: PlanModel>(
    d: HtnDomain<M>,
    s: ModelState<M>,
    a: Seq<usize>,
    b: Seq<usize>,
    k: nat,
)
    requires
        k <= a.len(),
        k <= b.len(),
        forall|i: int| 0 <= i < k ==> a[i] == b[i],
    ensures
        plan_state(d, s, a, k) == plan_state(d, s, b, k),
        plan_cost(d, s, a, k) == plan_cost(d, s, b, k),
    decreases k,
{
    if k > 0 {
        lemma_plan_prefix(d, s, a, b, (k - 1) as nat);
    }
}

/// The primitive tasks that a run runs can be executed one after the other, and
/// lead to the state that the run leads to.
pub proof fn runs_are_executable<M: PlanModel>(
    d: HtnDomain<M>,
    at: Position<M::Component>,
    moves: Seq<Move>,
)
    requires
        d.wf(),
        known_work(d, at.work),
        play(d, at, moves) is Some,
    ensures
        executable(d, at.state, steps_of(moves)),
        play(d, at, moves)->Some_0.state == plan_state(
            d,
            at.state,
            steps_of(moves),
            steps_of(moves).len(),
        ),
        known_work(d, play(d, at, moves)->Some_0.work),
    decreases moves.len(),
{
    if moves.len() > 0 {
        let front = moves.drop_last();
        let mv = moves.last();
        assert(front.push(mv) =~= moves);
        lemma_play_push(d, at, front, mv);
        runs_are_executable(d, at, front);
        let mid = play(d, at, front)->Some_0;
        lemma_next_known(d, mid, mv);
        match mv {
            Move::Do(t) => {
                let before = steps_of(front);
                let after = steps_of(moves);
                assert(after == before.push(t));
                assert forall|k: int| 0 <= k < after.len() implies {
                    &&& (#[trigger] after[k]) < d.tasks@.len()
                    &&& d.tasks@[after[k] as int] is Primitive
                    &&& d.tasks@[after[k] as int]->Primitive_0.ready(
                        plan_state(d, at.state, after, k as nat),
                    )
                } by {
                    lemma_plan_prefix(d, at.state, before, after, k as nat);
                    if k < before.len() {
                        assert(before[k] == after[k]);
                    }
                }
                lemma_plan_prefix(d, at.state, before, after, before.len());
            },
            Move::Choose { method, lin } => {},
        }
    }
}

/// The work that a queue stands for: a front that asks for an order stands for
/// the task whose method is to be ordered.
pub open spec fn queue_work(queue: Seq<Step>) -> Seq<ResumeStep> {
    if queue.len() > 0 && (queue[0] is Linearize) {
        seq![ResumeStep::Task(queue[0]->Linearize_task)] + work_of(queue.skip(1))
    } else {
        work_of(queue)
    }
}

/// Where a run stands that has come to a search node.
pub open spec fn standing<C>(node: Node<C>) -> Position<C> {
    Position { state: node.state, work: queue_work(node.queue) }
}

/// Whether `moves` lead from `start` to a position with this plan and these
/// method choices.
pub open spec fn leads_to<M: PlanModel>(
    d: HtnDomain<M>,
    start: Position<M::Component>,
    mtr: Seq<usize>,
    moves: Seq<Move>,
    at: Position<M::Component>,
    plan: Seq<usize>,
    choices: Seq<usize>,
) -> bool {
    &&& play(d, start, moves) == Some(at)
    &&& steps_of(moves) == plan
    &&& mtr + methods_of(moves) == choices
}

/// Whether an outcome is what a run from `start` has come to. A complete plan
/// leaves no work, or stands at a goal, or at a pause with no task behind it; a
/// paused one stands at a pause and keeps what is behind it; a partial one is
/// the front part of a run.
pub open spec fn outcome_of<M: PlanModel>(
    d: HtnDomain<M>,
    start: Position<M::Component>,
    mtr: Seq<usize>,
    outcome: Outcome,
    moves: Seq<Move>,
    at: Position<M::Component>,
) -> bool {
    &&& leads_to(d, start, mtr, moves, at, outcome.plan, outcome.mtr)
    &&& match outcome.status {
        PlanStatus::Complete => {
            &&& outcome.resume is None
            &&& at.work.len() > 0 ==> at_goal(d, at.work) || (at.work[0] is Pause && !asks_for_task(
                at.work,
            ))
        },
        PlanStatus::Paused => {
            &&& at.work.len() > 0
            &&& at.work[0] is Pause
            &&& outcome.resume == Some(at.work.skip(1))
            &&& asks_for_task(at.work)
        },
        PlanStatus::Partial => outcome.resume is None,
    }
}

/// Whether a goal stands at the front of the work.
pub open spec fn at_goal<M: PlanModel>(d: HtnDomain<M>, work: Seq<ResumeStep>) -> bool {
    work.len() > 0 && (work[0] matches ResumeStep::Task(t) && d.tasks@[t as int] is Goal)
}

/// Whether the work holds a task.
pub open spec fn asks_for_task(work: Seq<ResumeStep>) -> bool {
    exists|i: int| 0 <= i < work.len() && (#[trigger] work[i]) is Task
}

/// Whether a queue names what the domain has, and asks for an order at most at
/// its front.
pub open spec fn known_queue<M: PlanModel>(d: HtnDomain<M>, queue: Seq<Step>) -> bool {
    &&& forall|i: int|
        0 <= i < queue.len() ==> ((#[trigger] queue[i]) matches Step::Task(t, _) ==> t
            < d.tasks@.len())
    &&& forall|i: int| 0 < i < queue.len() ==> !((#[trigger] queue[i]) is Linearize)
}

/// Whether a queue entry that asks for an order asks for one that a valid
/// method has.
pub open spec fn order_owed<M: PlanModel>(
    d: HtnDomain<M>,
    s: ModelState<M>,
    task: int,
    method: int,
    lin: nat,
) -> bool {
    &&& 0 <= task < d.tasks@.len()
    &&& d.tasks@[task] is Compound
    &&& 0 <= method < d.tasks@[task]->Compound_0.methods@.len()
    &&& d.tasks@[task]->Compound_0.methods@[method].valid(s)
    &&& d.tasks@[task]->Compound_0.methods@[method].order is Partial
    &&& has_order(d.tasks@[task]->Compound_0.methods@[method], lin)
}

/// Whether a search node is where some run from `start` stands.
spec fn stands<M: PlanModel>(
    d: HtnDomain<M>,
    cfg: SearchConfig,
    start: Position<M::Component>,
    mtr: Seq<usize>,
    node: Node<M::Component>,
) -> bool {
    &&& known_queue(d, node.queue)
    &&& exists|moves: Seq<Move>|
        #[trigger] leads_to(d, start, mtr, moves, standing(node), node.plan, node.mtr)
    &&& cfg.cost_bounded ==> node.g == plan_cost(d, start.state, node.plan, node.plan.len())
    &&& node.queue.len() > 0 ==> (node.queue[0] matches Step::Linearize {
        task,
        method,
        lin,
    } ==> order_owed(d, node.state, task as int, method as int, lin as nat))
}

/// Whether the best plan so far is a finished run, at the cost recorded.
spec fn best_stands<M: PlanModel>(
    d: HtnDomain<M>,
    start: Position<M::Component>,
    mtr: Seq<usize>,
    best: Option<Incumbent>,
) -> bool {
    best matches Some(b) ==> {
        &&& b.cost == plan_cost(d, start.state, b.plan, b.plan.len())
        &&& b.cost < u64::MAX
        &&& exists|moves: Seq<Move>, at: Position<M::Component>|
            at.work.len() == 0 && #[trigger] leads_to(d, start, mtr, moves, at, b.plan, b.mtr)
    }
}

/// Whether some run has come as far as a search that was cut short.
spec fn cut_stands<M: PlanModel>(
    d: HtnDomain<M>,
    start: Position<M::Component>,
    mtr: Seq<usize>,
    cut: Option<Prefix>,
) -> bool {
    cut matches Some(c) ==> exists|moves: Seq<Move>, at: Position<M::Component>| #[trigger]
        leads_to(d, start, mtr, moves, at, c.plan, c.mtr)
}

/// Whether a stopped search stands by its outcome.
spec fn verdict_stands<M: PlanModel>(
    d: HtnDomain<M>,
    start: Position<M::Component>,
    mtr: Seq<usize>,
    v: Verdict,
) -> bool {
    v matches Verdict::Stop(o) ==> exists|moves: Seq<Move>, at: Position<M::Component>|
        #[trigger] outcome_of(d, start, mtr, o, moves, at)
}

/// A frame whose last choice failed: its node stands with the task in front,
/// and its method is valid there.
spec fn frame_stands<M: PlanModel>(
    d: HtnDomain<M>,
    cfg: SearchConfig,
    start: Position<M::Component>,
    mtr: Seq<usize>,
    f: FrameView<M::Component>,
) -> bool {
    &&& f.task < d.tasks@.len()
    &&& stands(d, cfg, start, mtr, restored(f, Step::Task(f.task, f.pinned)))
    &&& f.lin > 0 ==> {
        &&& order_owed(d, f.state, f.task as int, f.method as int, 0)
        &&& f.lin_total
            <= d.tasks@[f.task as int]->Compound_0.methods@[f.method as int].order->orders
    }
}

/// What the search picks is a valid method of the task.
pub proof fn lemma_pick_valid<M: PlanModel>(
    d: HtnDomain<M>,
    cfg: SearchConfig,
    t: nat,
    s: ModelState<M>,
    g: u64,
    here: Prefix,
    nonce: u64,
    pin: Option<u32>,
    pos: nat,
    p: Progress,
)
    requires
        d.tasks@[t as int] is Compound,
        d.tasks@[t as int]->Compound_0.methods@.len() <= u32::MAX,
    ensures
        ({
            let c = d.tasks@[t as int]->Compound_0;
            let r = pick(d, cfg, t, s, g, here, ranked_methods(c, s, nonce), pin, pos, p);
            r.0 matches Some(commit) ==> commit.method < c.methods@.len()
                && c.methods@[commit.method as int].valid(s)
        }),
    decreases
            positions(
                d.tasks@[t as int]->Compound_0,
                ranked_methods(d.tasks@[t as int]->Compound_0, s, nonce),
                pin,
            ) - pos,
{
    let c = d.tasks@[t as int]->Compound_0;
    let ranked = ranked_methods(c, s, nonce);
    first_valid_is_the_least(c, s, pos);
    ranking_keeps_every_valid_branch(c, s, nonce);
    match candidate(c, s, ranked, pin, pos) {
        None => {},
        Some(mi) => {
            if pin is None && !(c.policy is FirstMatch) {
                assert(ranked.contains(ranked[pos as int]));
            }
            let m = c.methods@[mi as int];
            let next = next_position(c, pin, pos, mi);
            let q = passed_over(d, cfg, t, pin, pos, mi, p);
            lemma_passed_left(d, cfg, t, pin, pos, mi, p);
            if priced_out(cfg, p, g, m.min_cost) {
                lemma_pick_valid(d, cfg, t, s, g, here, nonce, pin, next, q);
            } else if foreseen(
                d,
                m,
                s,
                tier_of(d, cfg, m, streak_of(d, cfg, p, t, mi)),
                p.left,
            ) is None {
                lemma_pick_valid(
                    d,
                    cfg,
                    t,
                    s,
                    g,
                    here,
                    nonce,
                    pin,
                    next,
                    refused(d, cfg, t, mi, s, here, q),
                );
            }
        },
    }
}

proof fn lemma_work_concat(a: Seq<Step>, b: Seq<Step>)
    ensures
        work_of(a + b) == work_of(a) + work_of(b),
{
    assert(work_of(a + b) =~= work_of(a) + work_of(b));
}

/// The members that committing a method queues are known tasks and pauses.
pub proof fn lemma_members_known<M: PlanModel>(
    d: HtnDomain<M>,
    t: int,
    method: int,
    pins: Seq<(usize, usize)>,
)
    requires
        d.wf(),
        0 <= t < d.tasks@.len(),
        d.tasks@[t] is Compound,
        0 <= method < d.tasks@[t]->Compound_0.methods@.len(),
    ensures
        plain(d, members(d.tasks@[t]->Compound_0.methods@[method], pins)),
        forall|lin: nat|
            has_order(d.tasks@[t]->Compound_0.methods@[method], lin) ==> plain(
                d,
                #[trigger] members_at(d.tasks@[t]->Compound_0.methods@[method], lin),
            ),
{
    let m = d.tasks@[t]->Compound_0.methods@[method];
    assert(d.tasks@[t].wf(d.tasks@.len(), d.slots()));
    assert(m.wf(d.tasks@.len(), d.slots()));
    match m.order {
        SubtaskOrder::Total => {
            lemma_total_plain(d, m, pins, 0);
        },
        SubtaskOrder::Partial { preds, orders, first } => {
            crate::refinement::lemma_partial_work(m, 0);
            lemma_ordered_plain(d, m, first@, pins, 0);
            assert forall|lin: nat| has_order(m, lin) implies plain(
                d,
                #[trigger] members_at(m, lin),
            ) by {
                crate::refinement::lemma_partial_work(m, lin);
                lemma_ordered_plain(
                    d,
                    m,
                    crate::order::topo_orders(preds@)[lin as int],
                    Seq::empty(),
                    0,
                );
            }
        },
    }
}

/// Whether queue entries are known tasks and pauses.
pub open spec fn plain<M: PlanModel>(d: HtnDomain<M>, queue: Seq<Step>) -> bool {
    forall|i: int|
        0 <= i < queue.len() ==> match #[trigger] queue[i] {
            Step::Task(t, _) => t < d.tasks@.len(),
            Step::Pause => true,
            Step::Linearize { .. } => false,
        }
}

proof fn lemma_total_plain<M: PlanModel>(
    d: HtnDomain<M>,
    m: crate::domain::Method<M>,
    pins: Seq<(usize, usize)>,
    pos: nat,
)
    requires
        m.wf(d.tasks@.len(), d.slots()),
    ensures
        plain(d, crate::search::members_from(m, pins, pos)),
    decreases m.subtasks@.len() - pos,
{
    if pos < m.subtasks@.len() {
        lemma_total_plain(d, m, pins, pos + 1);
        assert(m.subtasks@[pos as int] < d.tasks@.len());
    }
}

proof fn lemma_ordered_plain<M: PlanModel>(
    d: HtnDomain<M>,
    m: crate::domain::Method<M>,
    order: Seq<u8>,
    pins: Seq<(usize, usize)>,
    k: nat,
)
    requires
        m.wf(d.tasks@.len(), d.slots()),
        forall|i: int| 0 <= i < order.len() ==> (#[trigger] order[i]) < m.subtasks@.len(),
    ensures
        plain(d, crate::search::members_in_order(m, order, pins, k)),
    decreases order.len() - k,
{
    if k < order.len() {
        lemma_ordered_plain(d, m, order, pins, k + 1);
        assert(m.subtasks@[order[k as int] as int] < d.tasks@.len());
    }
}

/// Committing a method is a move.
proof fn lemma_choice_stands<M: PlanModel>(
    d: HtnDomain<M>,
    cfg: SearchConfig,
    start: Position<M::Component>,
    mtr: Seq<usize>,
    node: Node<M::Component>,
    t: int,
    method: nat,
    lin: nat,
    child: Node<M::Component>,
    front: Seq<Step>,
)
    requires
        d.wf(),
        stands(d, cfg, start, mtr, node),
        node.queue.len() > 0,
        0 <= t < d.tasks@.len(),
        d.tasks@[t] is Compound,
        standing(node).work == seq![ResumeStep::Task(t as u32)] + work_of(node.queue.skip(1)),
        method < d.tasks@[t]->Compound_0.methods@.len(),
        method <= usize::MAX,
        d.tasks@[t]->Compound_0.methods@[method as int].valid(node.state),
        has_order(d.tasks@[t]->Compound_0.methods@[method as int], lin),
        work_of(front) == method_work(d.tasks@[t]->Compound_0.methods@[method as int], lin),
        plain(d, front),
        child == (Node {
            queue: front + node.queue.skip(1),
            mtr: node.mtr.push(method as usize),
            ..node
        }),
    ensures
        stands(d, cfg, start, mtr, child),
{
    let moves = choose|moves: Seq<Move>|
        #[trigger] leads_to(d, start, mtr, moves, standing(node), node.plan, node.mtr);
    let mv = Move::Choose { method, lin };
    let here = standing(node);
    lemma_play_push(d, start, moves, mv);
    lemma_work_concat(front, node.queue.skip(1));
    assert(here.work.skip(1) =~= work_of(node.queue.skip(1)));
    assert forall|i: int| 0 <= i < child.queue.len() implies !((#[trigger] child.queue[i])
        is Linearize) && (child.queue[i] matches Step::Task(u, _) ==> u < d.tasks@.len()) by {
        if i < front.len() {
            assert(child.queue[i] == front[i]);
        } else {
            assert(child.queue[i] == node.queue[i - front.len() + 1]);
        }
    }
    assert(standing(child).work =~= work_of(front) + work_of(node.queue.skip(1)));
    let longer = moves.push(mv);
    assert(longer.drop_last() =~= moves);
    assert(steps_of(longer) == node.plan);
    assert(mtr + methods_of(longer) =~= (mtr + methods_of(moves)).push(method as usize));
    assert(leads_to(d, start, mtr, longer, standing(child), child.plan, child.mtr));
}

/// Running a ready primitive is a move.
proof fn lemma_run_stands<M: PlanModel>(
    d: HtnDomain<M>,
    cfg: SearchConfig,
    start: Position<M::Component>,
    mtr: Seq<usize>,
    node: Node<M::Component>,
    t: usize,
    pin: Option<u32>,
)
    requires
        d.wf(),
        known_work(d, start.work),
        stands(d, cfg, start, mtr, node),
        node.queue.len() > 0,
        node.queue[0] == Step::Task(t, pin),
        d.tasks@[t as int] is Primitive,
        d.tasks@[t as int]->Primitive_0.ready(node.state),
    ensures
        stands(d, cfg, start, mtr, run_primitive(d, cfg, node, t)),
{
    let moves = choose|moves: Seq<Move>|
        #[trigger] leads_to(d, start, mtr, moves, standing(node), node.plan, node.mtr);
    let mv = Move::Do(t);
    let here = standing(node);
    let child = run_primitive(d, cfg, node, t);
    lemma_play_push(d, start, moves, mv);
    assert(here.work[0] == ResumeStep::Task(t as u32));
    assert(here.work.skip(1) =~= work_of(node.queue.skip(1)));
    assert forall|i: int| 0 <= i < child.queue.len() implies !((#[trigger] child.queue[i])
        is Linearize) && (child.queue[i] matches Step::Task(u, _) ==> u < d.tasks@.len()) by {
        assert(child.queue[i] == node.queue[i + 1]);
    }
    let longer = moves.push(mv);
    assert(longer.drop_last() =~= moves);
    assert(leads_to(d, start, mtr, longer, standing(child), child.plan, child.mtr));
    runs_are_executable(d, start, moves);
    lemma_plan_prefix(d, start.state, node.plan, child.plan, node.plan.len());
}

proof fn lemma_explore_stands<M: PlanModel>(
    d: HtnDomain<M>,
    cfg: SearchConfig,
    start: Position<M::Component>,
    mtr: Seq<usize>,
    node: Node<M::Component>,
    pos: nat,
    p: Progress,
)
    requires
        d.wf(),
        known_work(d, start.work),
        stands(d, cfg, start, mtr, node),
        best_stands(d, start, mtr, p.best),
        cut_stands(d, start, mtr, p.cut),
    ensures
        verdict_stands(d, start, mtr, explore(d, cfg, node, pos, p).0),
        best_stands(d, start, mtr, explore(d, cfg, node, pos, p).1.best),
        cut_stands(d, start, mtr, explore(d, cfg, node, pos, p).1.cut),
    decreases p.left, 0nat,
{
    let moves = choose|moves: Seq<Move>|
        #[trigger] leads_to(d, start, mtr, moves, standing(node), node.plan, node.mtr);
    let r = explore(d, cfg, node, pos, p);
    let here = standing(node);
    if node.queue.len() == 0 {
        assert(here.work.len() == 0);
        assert(leads_to(d, start, mtr, moves, here, node.plan, node.mtr));
        if r.0 is Stop {
            assert(outcome_of(d, start, mtr, r.0->Stop_0, moves, here));
        } else {
            let b = r.1.best->Some_0;
            assert(b.plan == node.plan && b.mtr == node.mtr && b.cost == node.g);
            assert(leads_to(d, start, mtr, moves, here, b.plan, b.mtr));
        }
    } else if p.left == 0 {
        assert(outcome_of(d, start, mtr, r.0->Stop_0, moves, here));
    } else {
        let p1 = Progress { left: (p.left - 1) as nat, ..p };
        match node.queue[0] {
            Step::Pause => {
                let rest = node.queue.skip(1);
                assert(here.work[0] is Pause);
                assert(here.work.skip(1) =~= work_of(rest));
                if crate::search::has_task(rest) {
                    let i = choose|i: int| 0 <= i < rest.len() && (#[trigger] rest[i]) is Task;
                    assert(here.work[i + 1] is Task);
                } else {
                    assert forall|i: int| 0 <= i < here.work.len() implies !((
                    #[trigger] here.work[i]) is Task) by {
                        if i > 0 {
                            assert(node.queue[i] == rest[i - 1]);
                            assert(!(rest[i - 1] is Task));
                        }
                    }
                }
                assert(outcome_of(d, start, mtr, r.0->Stop_0, moves, here));
            },
            Step::Linearize { task, method, lin } => {
                let m = d.tasks@[task as int]->Compound_0.methods@[method as int];
                let front = members_at(m, lin as nat);
                let child = Node {
                    queue: front + node.queue.skip(1),
                    mtr: node.mtr.push(method as usize),
                    ..node
                };
                lemma_members_known(d, task as int, method as int, Seq::empty());
                lemma_choice_stands(
                    d,
                    cfg,
                    start,
                    mtr,
                    node,
                    task as int,
                    method as nat,
                    lin as nat,
                    child,
                    front,
                );
                let p2 = traced(
                    cfg,
                    p1,
                    event(d, task as nat, method as nat, TraceOutcome::Selected),
                );
                lemma_explore_stands(d, cfg, start, mtr, child, 0, p2);
            },
            Step::Task(t, pin) => {
                assert(t < d.tasks@.len());
                assert(here.work[0] == ResumeStep::Task(t as u32));
                match d.tasks@[t as int] {
                    Task::Goal(_) => {
                        assert(outcome_of(d, start, mtr, r.0->Stop_0, moves, here));
                    },
                    Task::Primitive(prim) => {
                        if !prim.ready(node.state) || priced_out(
                            cfg,
                            p,
                            node.g,
                            prim.step_cost(node.state),
                        ) {
                            if cfg.fail_fast {
                                assert(outcome_of(d, start, mtr, r.0->Stop_0, moves, here));
                            }
                        } else {
                            lemma_run_stands(d, cfg, start, mtr, node, t, pin);
                            lemma_explore_stands(
                                d,
                                cfg,
                                start,
                                mtr,
                                run_primitive(d, cfg, node, t),
                                0,
                                p1,
                            );
                        }
                    },
                    Task::Compound(c) => {
                        lemma_compound_stands(d, cfg, start, mtr, node, pos, p, t, pin);
                    },
                }
            },
        }
    }
}

proof fn lemma_compound_stands<M: PlanModel>(
    d: HtnDomain<M>,
    cfg: SearchConfig,
    start: Position<M::Component>,
    mtr: Seq<usize>,
    node: Node<M::Component>,
    pos: nat,
    p: Progress,
    t: usize,
    pin: Option<u32>,
)
    requires
        d.wf(),
        known_work(d, start.work),
        stands(d, cfg, start, mtr, node),
        best_stands(d, start, mtr, p.best),
        cut_stands(d, start, mtr, p.cut),
        node.queue.len() > 0,
        p.left > 0,
        node.queue[0] == Step::Task(t, pin),
        t < d.tasks@.len(),
        d.tasks@[t as int] is Compound,
    ensures
        verdict_stands(d, start, mtr, explore(d, cfg, node, pos, p).0),
        best_stands(d, start, mtr, explore(d, cfg, node, pos, p).1.best),
        cut_stands(d, start, mtr, explore(d, cfg, node, pos, p).1.cut),
    decreases p.left - 1, 2nat,
{
    let moves = choose|moves: Seq<Move>|
        #[trigger] leads_to(d, start, mtr, moves, standing(node), node.plan, node.mtr);
    let r = explore(d, cfg, node, pos, p);
    let here = standing(node);
    let c = d.tasks@[t as int]->Compound_0;
    let p1 = Progress { left: (p.left - 1) as nat, ..p };
    let ranked = ranked_methods(c, node.state, node.plan.len() as u64);
    let p2 = if pin is Some || c.policy is FirstMatch {
        p1
    } else {
        rejected(d, cfg, t as nat, ranked, c.methods@.len(), p1)
    };
    assert(d.tasks@[t as int].wf(d.tasks@.len(), d.slots()));
    lemma_rejected_left(d, cfg, t as nat, ranked, c.methods@.len(), p1);
    lemma_pick_left(d, cfg, t as nat, node.state, node.g, prefix_of(node), ranked, pin, pos, p2);
    lemma_pick_valid(
        d,
        cfg,
        t as nat,
        node.state,
        node.g,
        prefix_of(node),
        node.plan.len() as u64,
        pin,
        pos,
        p2,
    );
    let (choice, p3) = pick(d, cfg, t as nat, node.state, node.g, prefix_of(node), ranked, pin, pos, p2);
    assert(cut_stands(d, start, mtr, p3.cut)) by {
        if p3.cut != p.cut {
            assert(p3.cut == Some(prefix_of(node)));
            let c = p3.cut->Some_0;
            assert(c.plan == node.plan && c.mtr == node.mtr);
            assert(leads_to(d, start, mtr, moves, here, c.plan, c.mtr));
            assert(cut_stands(d, start, mtr, p3.cut));
        } else {
            assert(cut_stands(d, start, mtr, p.cut));
        }
    }
    match choice {
        None => {
            if cfg.fail_fast {
                assert(outcome_of(d, start, mtr, r.0->Stop_0, moves, here));
            }
        },
        Some(commit) => {
            let m = c.methods@[commit.method as int];
            let p4 = traced(cfg, p3, event(d, t as nat, commit.method, TraceOutcome::Selected));
            let child = child_of(d, node, t, commit);
            assert(m.wf(d.tasks@.len(), d.slots()));
            lemma_members_work(m, commit.pins);
            lemma_members_known(d, t as int, commit.method as int, commit.pins);
            assert(here.work =~= seq![ResumeStep::Task(t as u32)] + work_of(node.queue.skip(1)));
            lemma_choice_stands(
                d,
                cfg,
                start,
                mtr,
                node,
                t as int,
                commit.method,
                0,
                child,
                members(m, commit.pins),
            );
            lemma_explore_stands(d, cfg, start, mtr, child, 0, p4);
            let q = explore(d, cfg, child, 0, p4);
            lemma_explore_left(d, cfg, child, 0, p4);
            if q.0 is Fail {
                let f = frame_of(d, node, t, pin, commit);
                let back = restored(f, Step::Task(f.task, f.pinned));
                assert(back.queue =~= node.queue);
                assert(back == node);
                lemma_after_failure_stands(d, cfg, start, mtr, f, q.1);
            }
        },
    }
}

proof fn lemma_after_failure_stands<M: PlanModel>(
    d: HtnDomain<M>,
    cfg: SearchConfig,
    start: Position<M::Component>,
    mtr: Seq<usize>,
    f: FrameView<M::Component>,
    p: Progress,
)
    requires
        d.wf(),
        known_work(d, start.work),
        frame_stands(d, cfg, start, mtr, f),
        best_stands(d, start, mtr, p.best),
        cut_stands(d, start, mtr, p.cut),
    ensures
        verdict_stands(d, start, mtr, after_failure(d, cfg, f, p).0),
        best_stands(d, start, mtr, after_failure(d, cfg, f, p).1.best),
        cut_stands(d, start, mtr, after_failure(d, cfg, f, p).1.cut),
    decreases p.left, 1nat,
{
    let p1 = traced(
        cfg,
        p,
        event(d, f.task as nat, f.method as nat, TraceOutcome::Backtracked),
    );
    let back = restored(f, Step::Task(f.task, f.pinned));
    if 0 < f.lin < f.lin_total {
        let step = Step::Linearize { task: f.task as u32, method: f.method as u32, lin: f.lin as u32 };
        let node = restored(f, step);
        assert(d.tasks@[f.task as int].wf(d.tasks@.len(), d.slots()));
        assert(node.queue.skip(1) =~= f.queue);
        assert(back.queue.skip(1) =~= f.queue);
        assert(standing(node).work =~= standing(back).work);
        assert forall|i: int| 0 < i < node.queue.len() implies node.queue[i] == back.queue[i] by {}
        let moves = choose|moves: Seq<Move>|
            #[trigger] leads_to(d, start, mtr, moves, standing(back), back.plan, back.mtr);
        assert(leads_to(d, start, mtr, moves, standing(node), node.plan, node.mtr));
        assert(stands(d, cfg, start, mtr, node));
        lemma_explore_stands(d, cfg, start, mtr, node, 0, p1);
        let r = explore(d, cfg, node, 0, p1);
        lemma_explore_left(d, cfg, node, 0, p1);
        if r.0 is Fail && r.1.left < p.left {
            lemma_after_failure_stands(d, cfg, start, mtr, FrameView { lin: f.lin + 1, ..f }, r.1);
        }
    } else if f.pinned is None {
        lemma_explore_stands(d, cfg, start, mtr, back, f.resume, p1);
    }
}

/// Every answer of the search is a run of the network from the starting state:
/// the plan's steps are those the run runs, each ready in the state the steps
/// before it lead to, and the method choices are the run's. A complete plan
/// leaves no work (or stands at a goal, or at a pause with nothing behind it),
/// and a paused plan's resume point is the work behind the pause.
pub proof fn plans_are_runs<M: PlanModel>(
    d: HtnDomain<M>,
    cfg: SearchConfig,
    limit: nat,
    work: Seq<ResumeStep>,
    mtr: Seq<usize>,
    s: ModelState<M>,
    trace: Seq<DecompositionTrace>,
)
    requires
        d.wf(),
        known_work(d, work),
    ensures
        answer(searched(d, cfg, limit, work, mtr, s, trace)) matches Some(outcome) ==> {
            &&& executable(d, s, outcome.plan)
            &&& exists|moves: Seq<Move>, at: Position<M::Component>|
                #[trigger] outcome_of(d, Position { state: s, work }, mtr, outcome, moves, at)
        },
{
    let start = Position { state: s, work };
    let node = Node { state: s, queue: start_queue(work), plan: Seq::empty(), mtr, g: 0 };
    let none = Seq::<Move>::empty();
    assert(standing(node).work =~= work);
    assert(mtr + methods_of(none) =~= mtr);
    assert(leads_to(d, start, mtr, none, standing(node), node.plan, node.mtr));
    let p = Progress {
        left: limit,
        streaks: Seq::new(method_base(d, d.tasks@.len()), |i: int| 0u32),
        best: None,
        cut: None,
        trace,
    };
    lemma_explore_stands(d, cfg, start, mtr, node, 0, p);
    let r = searched(d, cfg, limit, work, mtr, s, trace);
    if answer(r) is Some {
        let outcome = answer(r)->Some_0;
        if r.1.best is Some {
            let b = r.1.best->Some_0;
            let (moves, at) = choose|moves: Seq<Move>, at: Position<M::Component>|
                at.work.len() == 0 && #[trigger] leads_to(d, start, mtr, moves, at, b.plan, b.mtr);
            assert(outcome_of(d, start, mtr, outcome, moves, at));
        } else if r.0 is Fail {
            let c = r.1.cut->Some_0;
            let (moves, at) = choose|moves: Seq<Move>, at: Position<M::Component>| #[trigger]
                leads_to(d, start, mtr, moves, at, c.plan, c.mtr);
            assert(outcome_of(d, start, mtr, outcome, moves, at));
        }
        let (moves, at) = choose|moves: Seq<Move>, at: Position<M::Component>|
            #[trigger] outcome_of(d, start, mtr, outcome, moves, at);
        runs_are_executable(d, start, moves);
    }
}

/// The best plan that a cost-bounded search records is recorded at what its
/// steps cost.
pub proof fn best_cost_is_the_plans_cost<M: PlanModel>(
    d: HtnDomain<M>,
    cfg: SearchConfig,
    limit: nat,
    work: Seq<ResumeStep>,
    mtr: Seq<usize>,
    s: ModelState<M>,
    trace: Seq<DecompositionTrace>,
)
    requires
        d.wf(),
        known_work(d, work),
    ensures
        searched(d, cfg, limit, work, mtr, s, trace).1.best matches Some(b) ==> b.cost == plan_cost(
            d,
            s,
            b.plan,
            b.plan.len(),
        ),
{
    let start = Position { state: s, work };
    let node = Node { state: s, queue: start_queue(work), plan: Seq::empty(), mtr, g: 0 };
    let none = Seq::<Move>::empty();
    assert(standing(node).work =~= work);
    assert(mtr + methods_of(none) =~= mtr);
    assert(leads_to(d, start, mtr, none, standing(node), node.plan, node.mtr));
    let p = Progress {
        left: limit,
        streaks: Seq::new(method_base(d, d.tasks@.len()), |i: int| 0u32),
        best: None,
        cut: None,
        trace,
    };
    lemma_explore_stands(d, cfg, start, mtr, node, 0, p);
}

proof fn lemma_plan_concat<M: PlanModel>(
    d: HtnDomain<M>,
    s: ModelState<M>,
    a: Seq<usize>,
    b: Seq<usize>,
    k: nat,
)
    requires
        k <= b.len(),
    ensures
        plan_state(d, s, a + b, a.len() + k) == plan_state(d, plan_state(d, s, a, a.len()), b, k),
    decreases k,
{
    if k == 0 {
        lemma_plan_prefix(d, s, a, a + b, a.len());
    } else {
        lemma_plan_concat(d, s, a, b, (k - 1) as nat);
        assert((a + b)[(a.len() + k) - 1] == b[k - 1]);
    }
}

/// Resuming a paused plan, once its steps have led where they were planned to
/// lead, goes on from there: the paused plan and the resumed one, one after the
/// other, can be executed from the starting state, and the method choices of the
/// first are the first choices of the second.
pub proof fn resumed_plans_continue<M: PlanModel>(
    d: HtnDomain<M>,
    cfg: SearchConfig,
    limit: nat,
    work: Seq<ResumeStep>,
    mtr: Seq<usize>,
    s: ModelState<M>,
    first: Outcome,
    second: Outcome,
)
    requires
        d.wf(),
        known_work(d, work),
        answer(searched(d, cfg, limit, work, mtr, s, Seq::empty())) == Some(first),
        first.status is Paused,
        first.resume is Some,
        answer(
            searched(
                d,
                cfg,
                limit,
                first.resume->Some_0,
                first.mtr,
                plan_state(d, s, first.plan, first.plan.len()),
                Seq::empty(),
            ),
        ) == Some(second),
    ensures
        executable(d, s, first.plan + second.plan),
        first.mtr.is_prefix_of(second.mtr),
{
    plans_are_runs(d, cfg, limit, work, mtr, s, Seq::empty());
    let start = Position { state: s, work };
    let (moves, at) = choose|moves: Seq<Move>, at: Position<M::Component>|
        #[trigger] outcome_of(d, start, mtr, first, moves, at);
    runs_are_executable(d, start, moves);
    let s2 = plan_state(d, s, first.plan, first.plan.len());
    let rest = first.resume->Some_0;
    assert(known_work(d, rest)) by {
        assert(rest == at.work.skip(1));
        assert forall|i: int| 0 <= i < rest.len() implies ((#[trigger] rest[i])
            matches ResumeStep::Task(t) ==> t < d.tasks@.len()) by {
            assert(rest[i] == at.work[i + 1]);
        }
    }
    plans_are_runs(d, cfg, limit, rest, first.mtr, s2, Seq::empty());
    let start2 = Position { state: s2, work: rest };
    let (moves2, at2) = choose|moves2: Seq<Move>, at2: Position<M::Component>|
        #[trigger] outcome_of(d, start2, first.mtr, second, moves2, at2);
    let all = first.plan + second.plan;
    let n = first.plan.len();
    assert forall|k: int| 0 <= k < all.len() implies {
        &&& (#[trigger] all[k]) < d.tasks@.len()
        &&& d.tasks@[all[k] as int] is Primitive
        &&& d.tasks@[all[k] as int]->Primitive_0.ready(plan_state(d, s, all, k as nat))
    } by {
        if k < n {
            assert(all[k] == first.plan[k]);
            lemma_plan_prefix(d, s, first.plan, all, k as nat);
        } else {
            assert(all[k] == second.plan[k - n]);
            lemma_plan_concat(d, s, first.plan, second.plan, (k - n) as nat);
        }
    }
}

} // verus!
