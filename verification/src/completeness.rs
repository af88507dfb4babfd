//! What an exhausted search is worth: no run of the network was overlooked.

use crate::domain::{first_valid_is_the_least, CompoundTask, HtnDomain, Task};
use crate::model::{ModelState, PlanModel, ScoreFn};
use crate::order::SubtaskOrder;
use crate::planner::{answer, searched, start_queue, ResumeStep};
use crate::pruning::{look_ahead_pins_soundly, look_ahead_refutes_soundly, only_choice};
use crate::ranking::{ranked_methods, ranking_keeps_every_valid_branch};
use crate::refinement::{
    drains, has_order, known_work, lemma_bound_carries, lemma_drain_split, lemma_member_sum_below,
    lemma_members_work, lemma_method_work_sum, lemma_next_known, lemma_play_push,
    lemma_work_sum_concat, lemma_work_sum_front, make_move, method_work, play, steps_of, work_sum,
    Move, Position,
};
use crate::search::{
    after_failure, candidate, child_of, cost_sum, event, explore, foreseen, frame_of,
    lemma_explore_left, lemma_passed_left, lemma_pick_left, lemma_rejected_left, members,
    members_at, method_base, next_position, passed_over, pick, positions, prefix_of, priced_out,
    refused, rejected, restored, run_primitive, streak_of, tier_of, traced, work_of, FrameView,
    Incumbent, Node, Prefix, Progress, SearchConfig, Step,
};
use crate::selection::{DecompositionTrace, TraceOutcome};
use crate::soundness::{
    at_goal, known_queue, lemma_members_known, lemma_pick_valid, lemma_plan_prefix, order_owed,
    plain, plan_cost, queue_work, runs_are_executable, standing,
};
use crate::summaries::{
    at_most, cost_bounds, costs, least_stage, method_shape, method_summarized, network, summarizes,
};
use vstd::prelude::*;

verus! {

/// What the steps of a run cost.
pub open spec fn run_cost<M: PlanModel>(
    d: HtnDomain<M>,
    at: Position<M::Component>,
    moves: Seq<Move>,
) -> nat
    decreases moves.len(),
{
    if moves.len() == 0 {
        0
    } else {
        match make_move(d, at, moves[0]) {
            None => 0,
            Some(next) => (match moves[0] {
                Move::Do(t) => d.tasks@[t as int]->Primitive_0.step_cost(at.state) as nat,
                Move::Choose { .. } => 0,
            }) + run_cost(d, next, moves.skip(1)),
        }
    }
}

proof fn lemma_cost_push<M: PlanModel>(
    d: HtnDomain<M>,
    at: Position<M::Component>,
    moves: Seq<Move>,
    mv: Move,
)
    requires
        play(d, at, moves.push(mv)) is Some,
    ensures
        run_cost(d, at, moves.push(mv)) == run_cost(d, at, moves) + (match mv {
            Move::Do(t) => d.tasks@[t as int]->Primitive_0.step_cost(
                play(d, at, moves)->Some_0.state,
            ) as nat,
            Move::Choose { .. } => 0,
        }),
    decreases moves.len(),
{
    lemma_play_push(d, at, moves, mv);
    let all = moves.push(mv);
    if moves.len() == 0 {
        assert(all[0] == mv);
        assert(all.skip(1) =~= Seq::<Move>::empty());
        let next = make_move(d, at, mv)->Some_0;
        assert(run_cost(d, next, all.skip(1)) == 0);
        assert(run_cost(d, at, moves) == 0);
    } else {
        assert(all[0] == moves[0]);
        assert(all.skip(1) =~= moves.skip(1).push(mv));
        let next = make_move(d, at, moves[0])->Some_0;
        lemma_cost_push(d, next, moves.skip(1), mv);
    }
}

/// A run costs what the plan of its steps costs, up to the cost that counts as
/// infinite.
pub proof fn runs_cost_what_their_plans_cost<M: PlanModel>(
    d: HtnDomain<M>,
    at: Position<M::Component>,
    moves: Seq<Move>,
)
    requires
        d.wf(),
        known_work(d, at.work),
        play(d, at, moves) is Some,
    ensures
        plan_cost(d, at.state, steps_of(moves), steps_of(moves).len()) == at_most(
            u64::MAX as nat,
            run_cost(d, at, moves),
        ),
    decreases moves.len(),
{
    if moves.len() > 0 {
        let front = moves.drop_last();
        let mv = moves.last();
        assert(front.push(mv) =~= moves);
        lemma_play_push(d, at, front, mv);
        lemma_cost_push(d, at, front, mv);
        runs_cost_what_their_plans_cost(d, at, front);
        runs_are_executable(d, at, front);
        let before = steps_of(front);
        match mv {
            Move::Do(t) => {
                let after = steps_of(moves);
                assert(after == before.push(t));
                lemma_plan_prefix(d, at.state, before, after, before.len());
            },
            Move::Choose { .. } => {},
        }
    }
}

/// The cost summary is a lower bound: no run costs less than the sum of its
/// tasks' minimum costs.
pub proof fn min_cost_bounds_every_run<M: PlanModel>(
    d: HtnDomain<M>,
    at: Position<M::Component>,
    moves: Seq<Move>,
)
    requires
        d.wf(),
        d.summarized(),
        known_work(d, at.work),
        drained(d, at, moves),
    ensures
        work_sum(at.work, cost_bounds(d)) <= run_cost(d, at, moves),
    decreases moves.len(),
{
    let bounds = cost_bounds(d);
    if moves.len() > 0 {
        let work = at.work;
        let next = make_move(d, at, moves[0])->Some_0;
        lemma_work_sum_front(work, bounds);
        lemma_next_known(d, at, moves[0]);
        min_cost_bounds_every_run(d, next, moves.skip(1));
        let t = work[0]->Task_0 as int;
        match moves[0] {
            Move::Do(_) => {
                assert(summarizes(d.summaries@[t], network(d), d.slots(), t));
                let leaf = costs(network(d));
                assert(bounds[t] <= least_stage(network(d), leaf, u64::MAX as nat, 0)[t]);
                let p = d.tasks@[t]->Primitive_0;
                assert(network(d)[t].cost <= p.step_cost(at.state)) by {
                    match p.cost {
                        Some(ScoreFn::Constant(c)) => {},
                        Some(ScoreFn::Dynamic { .. }) => {},
                        None => {},
                    }
                }
            },
            Move::Choose { method, lin } => {
                let m = d.tasks@[t]->Compound_0.methods@[method as int];
                lemma_bound_carries(d, t, method, lin, bounds, u64::MAX as nat);
                lemma_work_sum_concat(method_work(m, lin), work.skip(1), bounds);
            },
        }
    }
}

/// Whether a run decomposes all the work.
pub open spec fn drained<M: PlanModel>(
    d: HtnDomain<M>,
    at: Position<M::Component>,
    moves: Seq<Move>,
) -> bool {
    play(d, at, moves) matches Some(end) && end.work.len() == 0
}

/// Whether a run comes to a point where the search ends: no work left, a pause,
/// or a goal.
pub open spec fn finishes<M: PlanModel>(
    d: HtnDomain<M>,
    at: Position<M::Component>,
    moves: Seq<Move>,
) -> bool {
    play(d, at, moves) matches Some(end) && (end.work.len() == 0 || end.work[0] is Pause || at_goal(
        d,
        end.work,
    ))
}

/// The cost that a complete plan has to stay below to beat the best one so far.
pub open spec fn cost_limit(best: Option<Incumbent>) -> u64 {
    match best {
        Some(b) => b.cost,
        None => u64::MAX,
    }
}

/// Whether a search must not overlook a run from `at` on top of cost `g`. Once
/// the look-ahead has left a branch out for want of budget, runs that take more
/// moves than the steps left do not count; a cost-bounded search owes only runs
/// that beat its best plan.
pub open spec fn owed<M: PlanModel>(
    d: HtnDomain<M>,
    cfg: SearchConfig,
    at: Position<M::Component>,
    g: nat,
    moves: Seq<Move>,
    p: Progress,
) -> bool {
    if cfg.cost_bounded {
        &&& drained(d, at, moves)
        &&& cfg.lookahead is Off || p.cut is None || moves.len() <= p.left
        &&& g + run_cost(d, at, moves) < cost_limit(p.best)
    } else if cfg.lookahead is Off {
        finishes(d, at, moves)
    } else {
        drained(d, at, moves) && (p.cut is None || moves.len() <= p.left)
    }
}

/// Whether a pin is right: whatever run decomposes what is queued before the
/// pinned entry, the pinned method is the only choice there.
pub open spec fn pins_hold<M: PlanModel>(d: HtnDomain<M>, s: ModelState<M>, queue: Seq<Step>) -> bool {
    forall|i: int, moves: Seq<Move>, e: ModelState<M>|
        0 <= i < queue.len() && #[trigger] drains(
            d,
            s,
            queue_work(queue.take(i)),
            moves,
            e,
        ) ==> (queue[i] matches Step::Task(t, Some(pm)) ==> only_choice(d, t as int, pm as int, e))
}

/// Whether a method was offered before position `pos` of a task's branches.
pub open spec fn offered_before<M: PlanModel>(
    c: CompoundTask<M>,
    ranked: Seq<u32>,
    pin: Option<u32>,
    pos: nat,
    method: nat,
) -> bool {
    match pin {
        Some(pm) => pm < pos && method == pm,
        None => if c.policy is FirstMatch {
            method < pos
        } else {
            exists|k: int| 0 <= k < pos && k < ranked.len() && #[trigger] ranked[k] == method
        },
    }
}

/// Whether position `resume` of a task's branches is the one behind `method`.
pub open spec fn resumes_behind<M: PlanModel>(
    c: CompoundTask<M>,
    ranked: Seq<u32>,
    pin: Option<u32>,
    resume: nat,
    method: nat,
) -> bool {
    match pin {
        Some(pm) => method == pm && resume == pm + 1,
        None => if c.policy is FirstMatch {
            resume == method + 1
        } else {
            0 < resume <= ranked.len() && ranked[resume - 1] == method
        },
    }
}

/// Whether a first move is none that exploring a node looks into: the entry's
/// other orders, and the branches offered earlier.
pub open spec fn excused<M: PlanModel>(
    d: HtnDomain<M>,
    node: Node<M::Component>,
    pos: nat,
    mv: Move,
) -> bool {
    match node.queue[0] {
        Step::Pause => false,
        Step::Linearize { task, method, lin } => mv != (Move::Choose {
            method: method as nat,
            lin: lin as nat,
        }),
        Step::Task(t, pin) => match d.tasks@[t as int] {
            Task::Compound(c) => mv matches Move::Choose { method, lin } && offered_before(
                c,
                ranked_methods(c, node.state, node.plan.len() as u64),
                pin,
                pos,
                method,
            ),
            _ => false,
        },
    }
}

/// Whether exploring a node, from branch position `pos` on, overlooked nothing.
pub open spec fn exhausts<M: PlanModel>(
    d: HtnDomain<M>,
    cfg: SearchConfig,
    node: Node<M::Component>,
    pos: nat,
    p: Progress,
) -> bool {
    forall|moves: Seq<Move>| #[trigger]
        owed(d, cfg, standing(node), node.g as nat, moves, p) ==> node.queue.len() > 0
            && moves.len() > 0 && excused(d, node, pos, moves[0])
}

/// Whether a node may be explored.
pub open spec fn fit<M: PlanModel>(d: HtnDomain<M>, node: Node<M::Component>, pos: nat) -> bool {
    &&& known_queue(d, node.queue)
    &&& node.state.len() == d.slots()
    &&& pins_hold(d, node.state, node.queue)
    &&& node.queue.len() > 0 ==> match node.queue[0] {
        Step::Task(t, Some(_)) => pos == 0,
        Step::Linearize { task, method, lin } => order_owed(
            d,
            node.state,
            task as int,
            method as int,
            lin as nat,
        ),
        _ => true,
    }
}

/// Progress that is behind in neither steps nor cost, nor in what was left out.
pub open spec fn progressed(late: Progress, early: Progress) -> bool {
    &&& late.left <= early.left
    &&& early.cut is Some ==> late.cut is Some
    &&& cost_limit(late.best) <= cost_limit(early.best)
}

proof fn lemma_owed_earlier<M: PlanModel>(
    d: HtnDomain<M>,
    cfg: SearchConfig,
    at: Position<M::Component>,
    g: nat,
    moves: Seq<Move>,
    late: Progress,
    early: Progress,
)
    requires
        owed(d, cfg, at, g, moves, late),
        progressed(late, early),
    ensures
        owed(d, cfg, at, g, moves, early),
{
}

/// A run that is owed goes on with a run that is owed.
pub(crate) proof fn lemma_owed_next<M: PlanModel>(
    d: HtnDomain<M>,
    cfg: SearchConfig,
    at: Position<M::Component>,
    g: u64,
    moves: Seq<Move>,
    p: Progress,
)
    requires
        owed(d, cfg, at, g as nat, moves, p),
        at.work.len() > 0,
        at.work[0] is Task,
        !at_goal(d, at.work),
    ensures
        moves.len() > 0,
        make_move(d, at, moves[0]) is Some,
        ({
            let next = make_move(d, at, moves[0])->Some_0;
            let cost = match moves[0] {
                Move::Do(t) => d.tasks@[t as int]->Primitive_0.step_cost(at.state),
                Move::Choose { .. } => 0,
            };
            &&& owed(
                d,
                cfg,
                next,
                if cfg.cost_bounded {
                    cost_sum(g, cost) as nat
                } else {
                    g as nat
                },
                moves.skip(1),
                p,
            )
            &&& cfg.cost_bounded ==> g + cost < cost_limit(p.best)
        }),
{
    if moves.len() == 0 {
        assert(play(d, at, moves) == Some(at));
    }
}

/// Whether the search may leave a method out: it cannot beat the best plan, or
/// the look-ahead refutes it.
pub open spec fn ruled_out<M: PlanModel>(
    d: HtnDomain<M>,
    cfg: SearchConfig,
    c: CompoundTask<M>,
    method: nat,
    s: ModelState<M>,
    g: u64,
    p: Progress,
) -> bool {
    let m = c.methods@[method as int];
    ||| priced_out(cfg, p, g, m.min_cost)
    ||| exists|streak: u32| refuses(d, m, s, #[trigger] tier_of(d, cfg, m, streak), p)
}

/// Whether the look-ahead refuses a method: whatever the budget, or within the
/// steps left, which the search has then taken note of.
pub open spec fn refuses<M: PlanModel>(
    d: HtnDomain<M>,
    m: crate::domain::Method<M>,
    s: ModelState<M>,
    tier: crate::search::SweepTier,
    p: Progress,
) -> bool {
    foreseen(d, m, s, tier, p.left) is None && (p.cut is Some || foreseen(
        d,
        m,
        s,
        tier,
        usize::MAX as nat,
    ) is None)
}

/// A method that is ruled out is on no run that is owed.
pub(crate) proof fn lemma_ruled_out<M: PlanModel>(
    d: HtnDomain<M>,
    cfg: SearchConfig,
    at: Position<M::Component>,
    t: u32,
    rest: Seq<ResumeStep>,
    g: u64,
    moves: Seq<Move>,
    p: Progress,
)
    requires
        d.wf(),
        d.summarized(),
        t < d.tasks@.len(),
        d.tasks@[t as int] is Compound,
        at.state.len() == d.slots(),
        at.work == seq![ResumeStep::Task(t)] + rest,
        known_work(d, at.work),
        moves.len() > 0,
        moves[0] is Choose,
        ruled_out(
            d,
            cfg,
            d.tasks@[t as int]->Compound_0,
            moves[0]->method,
            at.state,
            g,
            p,
        ),
        make_move(d, at, moves[0]) is Some,
    ensures
        !owed(d, cfg, at, g as nat, moves, p),
{
    if owed(d, cfg, at, g as nat, moves, p) {
        let c = d.tasks@[t as int]->Compound_0;
        let method = moves[0]->method;
        let lin = moves[0]->lin;
        let m = c.methods@[method as int];
        assert(d.tasks@[t as int].wf(d.tasks@.len(), d.slots()));
        assert(m.wf(d.tasks@.len(), d.slots()));
        let next = make_move(d, at, moves[0])->Some_0;
        assert(at.work.skip(1) =~= rest);
        lemma_next_known(d, at, moves[0]);
        if priced_out(cfg, p, g, m.min_cost) {
            let bounds = cost_bounds(d);
            min_cost_bounds_every_run(d, next, moves.skip(1));
            lemma_work_sum_concat(method_work(m, lin), rest, bounds);
            lemma_method_work_sum(m, lin, bounds);
            lemma_member_sum_below(method_shape(m), bounds, u64::MAX as nat, m.subtasks@.len());
            assert(method_summarized(m, network(d), d.slots(), bounds));
        } else {
            let streak = choose|streak: u32|
                refuses(d, m, at.state, #[trigger] tier_of(d, cfg, m, streak), p);
            let tier = tier_of(d, cfg, m, streak);
            let end = play(d, at, moves)->Some_0;
            assert(!(cfg.lookahead is Off));
            assert(end.work =~= Seq::<ResumeStep>::empty());
            assert(drains(d, next.state, method_work(m, lin) + rest, moves.skip(1), end.state));
            let (n, mid) = lemma_drain_split(
                d,
                at.state,
                method_work(m, lin),
                rest,
                moves.skip(1),
                end.state,
            );
            look_ahead_refutes_soundly(
                d,
                m,
                at.state,
                tier,
                p.left,
                lin,
                moves.skip(1).take(n as int),
                mid,
            );
        }
    }
}

/// Nothing is passed over in picking a branch but what is ruled out.
pub(crate) proof fn lemma_pick_exhausts<M: PlanModel>(
    d: HtnDomain<M>,
    cfg: SearchConfig,
    t: nat,
    s: ModelState<M>,
    g: u64,
    here: Prefix,
    nonce: u64,
    pin: Option<u32>,
    pos: nat,
    p: Progress,
    method: nat,
)
    requires
        d.tasks@[t as int] is Compound,
        d.tasks@[t as int]->Compound_0.methods@.len() <= u32::MAX,
        method < d.tasks@[t as int]->Compound_0.methods@.len(),
        d.tasks@[t as int]->Compound_0.methods@[method as int].valid(s),
        pin matches Some(pm) ==> method == pm,
    ensures
        ({
            let c = d.tasks@[t as int]->Compound_0;
            let ranked = ranked_methods(c, s, nonce);
            let r = pick(d, cfg, t, s, g, here, ranked, pin, pos, p);
            match r.0 {
                None => offered_before(c, ranked, pin, pos, method) || ruled_out(
                    d,
                    cfg,
                    c,
                    method,
                    s,
                    g,
                    r.1,
                ),
                Some(commit) => offered_before(c, ranked, pin, pos, method) || ruled_out(
                    d,
                    cfg,
                    c,
                    method,
                    s,
                    g,
                    r.1,
                ) || method == commit.method || !offered_before(
                    c,
                    ranked,
                    pin,
                    commit.resume,
                    method,
                ),
            }
        }),
    decreases
            positions(
                d.tasks@[t as int]->Compound_0,
                ranked_methods(d.tasks@[t as int]->Compound_0, s, nonce),
                pin,
            ) - pos,
{
    let c = d.tasks@[t as int]->Compound_0;
    let ranked = ranked_methods(c, s, nonce);
    first_valid_is_the_least(c, s, pos);
    ranking_keeps_every_valid_branch(c, s, nonce);
    match candidate(c, s, ranked, pin, pos) {
        None => {
            if pin is None && !(c.policy is FirstMatch) {
                assert(ranked.contains(method as u32));
                let k = ranked.index_of(method as u32);
                assert(ranked[k] == method);
            }
        },
        Some(mi) => {
            let m = c.methods@[mi as int];
            let next = next_position(c, pin, pos, mi);
            let q = passed_over(d, cfg, t, pin, pos, mi, p);
            lemma_passed_left(d, cfg, t, pin, pos, mi, p);
            // Between `pos` and the next position, only `mi` is offered.
            assert(offered_before(c, ranked, pin, next, method) ==> offered_before(
                c,
                ranked,
                pin,
                pos,
                method,
            ) || method == mi) by {
                if pin is None && !(c.policy is FirstMatch) && offered_before(
                    c,
                    ranked,
                    pin,
                    next,
                    method,
                ) {
                    let k = choose|k: int|
                        0 <= k < next && k < ranked.len() && #[trigger] ranked[k] == method;
                    if k < pos {
                        assert(ranked[k] == method);
                    }
                }
            }
            if priced_out(cfg, p, g, m.min_cost) {
                lemma_pick_exhausts(d, cfg, t, s, g, here, nonce, pin, next, q, method);
                lemma_pick_left(d, cfg, t, s, g, here, ranked, pin, next, q);
            } else {
                let streak = streak_of(d, cfg, p, t, mi);
                if foreseen(d, m, s, tier_of(d, cfg, m, streak), p.left) is None {
                    let q2 = refused(d, cfg, t, mi, s, here, q);
                    lemma_pick_exhausts(d, cfg, t, s, g, here, nonce, pin, next, q2, method);
                    lemma_pick_left(d, cfg, t, s, g, here, ranked, pin, next, q2);
                    let r = pick(d, cfg, t, s, g, here, ranked, pin, pos, p);
                    assert(refuses(d, m, s, tier_of(d, cfg, m, streak), r.1));
                }
            }
        },
    }
}

/// Whether some sweep foresaw these pins for a method.
pub open spec fn foresaw<M: PlanModel>(
    d: HtnDomain<M>,
    m: crate::domain::Method<M>,
    s: ModelState<M>,
    budget: nat,
    pins: Seq<(usize, usize)>,
) -> bool {
    exists|tier: crate::search::SweepTier| #[trigger] foreseen(d, m, s, tier, budget) == Some(pins)
}

/// What a picked branch was foreseen to need, and where it stands.
pub(crate) proof fn lemma_pick_foreseen<M: PlanModel>(
    d: HtnDomain<M>,
    cfg: SearchConfig,
    t: nat,
    s: ModelState<M>,
    g: u64,
    here: Prefix,
    ranked: Seq<u32>,
    pin: Option<u32>,
    pos: nat,
    p: Progress,
)
    ensures
        pick(d, cfg, t, s, g, here, ranked, pin, pos, p).0 matches Some(commit) ==> foresaw(
            d,
            d.tasks@[t as int]->Compound_0.methods@[commit.method as int],
            s,
            p.left,
            commit.pins,
        ) && resumes_behind(
            d.tasks@[t as int]->Compound_0,
            ranked,
            pin,
            commit.resume,
            commit.method,
        ),
    decreases positions(d.tasks@[t as int]->Compound_0, ranked, pin) - pos,
{
    let c = d.tasks@[t as int]->Compound_0;
    first_valid_is_the_least(c, s, pos);
    match candidate(c, s, ranked, pin, pos) {
        None => {},
        Some(mi) => {
            let m = c.methods@[mi as int];
            let next = next_position(c, pin, pos, mi);
            let q = passed_over(d, cfg, t, pin, pos, mi, p);
            lemma_passed_left(d, cfg, t, pin, pos, mi, p);
            if priced_out(cfg, p, g, m.min_cost) {
                lemma_pick_foreseen(d, cfg, t, s, g, here, ranked, pin, next, q);
            } else {
                let tier = tier_of(d, cfg, m, streak_of(d, cfg, p, t, mi));
                if foreseen(d, m, s, tier, p.left) is None {
                    let q2 = refused(d, cfg, t, mi, s, here, q);
                    lemma_pick_foreseen(d, cfg, t, s, g, here, ranked, pin, next, q2);
                } else {
                    let pins = foreseen(d, m, s, tier, p.left)->Some_0;
                    assert(foresaw(d, m, s, p.left, pins));
                }
            }
        },
    }
}

/// Choosing a method keeps what is known of the pins behind it.
proof fn lemma_pins_behind_choice<M: PlanModel>(
    d: HtnDomain<M>,
    s: ModelState<M>,
    queue: Seq<Step>,
    t: u32,
    method: nat,
    lin: nat,
    front: Seq<Step>,
    i: int,
    moves: Seq<Move>,
    e: ModelState<M>,
)
    requires
        pins_hold(d, s, queue),
        queue.len() > 0,
        known_queue(d, queue),
        queue_work(queue.take(1)) == seq![ResumeStep::Task(t)],
        t < d.tasks@.len(),
        d.tasks@[t as int] is Compound,
        method < d.tasks@[t as int]->Compound_0.methods@.len(),
        d.tasks@[t as int]->Compound_0.methods@[method as int].valid(s),
        has_order(d.tasks@[t as int]->Compound_0.methods@[method as int], lin),
        work_of(front) == method_work(
            d.tasks@[t as int]->Compound_0.methods@[method as int],
            lin,
        ),
        plain(d, front),
        front.len() <= i < front.len() + queue.len() - 1,
        drains(d, s, queue_work((front + queue.skip(1)).take(i)), moves, e),
    ensures
        (front + queue.skip(1))[i] matches Step::Task(u, Some(pm)) ==> only_choice(
            d,
            u as int,
            pm as int,
            e,
        ),
{
    let all = front + queue.skip(1);
    let j = i - front.len() + 1;
    assert(all[i] == queue[j]);
    let behind = queue.skip(1).take(j - 1);
    assert(all.take(i) =~= front + behind);
    assert(work_of(front + behind) =~= work_of(front) + work_of(behind));
    assert forall|k: int| 0 <= k < all.take(i).len() implies !((#[trigger] all.take(i)[k])
        is Linearize) by {
        if k < front.len() {
            assert(all.take(i)[k] == front[k]);
        } else {
            assert(all.take(i)[k] == queue[k - front.len() + 1]);
        }
    }
    assert(queue_work(all.take(i)) == work_of(front) + work_of(behind));
    // The same run, with the choice in front of it.
    let before = queue_work(queue.take(j));
    assert(queue.take(j).skip(1) =~= behind);
    assert(queue.take(1)[0] == queue[0]);
    assert(queue.take(j)[0] == queue[0]);
    assert(queue_work(queue.take(1))[0] == ResumeStep::Task(t));
    assert(before =~= seq![ResumeStep::Task(t)] + work_of(behind)) by {
        if !(queue[0] is Linearize) {
            assert(work_of(queue.take(j)).len() == j);
            assert(work_of(queue.take(1))[0] == crate::search::resume_step(queue[0]));
            assert forall|k: int| 0 < k < j implies work_of(queue.take(j))[k] == work_of(behind)[k
                - 1] by {
                assert(queue.take(j)[k] == behind[k - 1]);
            }
        } else {
            assert(queue_work(queue.take(1)) == seq![
                ResumeStep::Task(queue[0]->Linearize_task),
            ] + work_of(queue.take(1).skip(1)));
        }
    }
    let longer = seq![Move::Choose { method, lin }] + moves;
    assert(longer[0] == (Move::Choose { method, lin }));
    assert(longer.skip(1) =~= moves);
    assert(before.skip(1) =~= work_of(behind));
    assert(drains(d, s, before, longer, e));
}

/// What is foreseen for a method, and what was known of the pins behind it,
/// make the pins of the queue behind the choice right.
pub(crate) proof fn lemma_child_fit<M: PlanModel>(
    d: HtnDomain<M>,
    node: Node<M::Component>,
    pos: nat,
    t: u32,
    method: nat,
    lin: nat,
    front: Seq<Step>,
    child: Node<M::Component>,
)
    requires
        d.wf(),
        fit(d, node, pos),
        node.queue.len() > 0,
        queue_work(node.queue.take(1)) == seq![ResumeStep::Task(t)],
        t < d.tasks@.len(),
        d.tasks@[t as int] is Compound,
        method < d.tasks@[t as int]->Compound_0.methods@.len(),
        d.tasks@[t as int]->Compound_0.methods@[method as int].valid(node.state),
        has_order(d.tasks@[t as int]->Compound_0.methods@[method as int], lin),
        work_of(front) == method_work(
            d.tasks@[t as int]->Compound_0.methods@[method as int],
            lin,
        ),
        plain(d, front),
        forall|i: int, moves: Seq<Move>, e: ModelState<M>|
            0 <= i < front.len() && #[trigger] drains(
                d,
                node.state,
                work_of(front.take(i)),
                moves,
                e,
            ) ==> (front[i] matches Step::Task(u, Some(pm)) ==> only_choice(
                d,
                u as int,
                pm as int,
                e,
            )),
        child.queue == front + node.queue.skip(1),
        child.state == node.state,
    ensures
        fit(d, child, 0),
        standing(child).work == work_of(front) + work_of(node.queue.skip(1)),
        child.queue.len() > 0 ==> !(child.queue[0] is Linearize),
{
    let queue = child.queue;
    assert forall|i: int| 0 <= i < queue.len() implies !((#[trigger] queue[i]) is Linearize) && (
    queue[i] matches Step::Task(u, _) ==> u < d.tasks@.len()) by {
        if i < front.len() {
            assert(queue[i] == front[i]);
        } else {
            assert(queue[i] == node.queue[i - front.len() + 1]);
        }
    }
    assert(work_of(queue) =~= work_of(front) + work_of(node.queue.skip(1)));
    assert forall|i: int, moves: Seq<Move>, e: ModelState<M>|
        0 <= i < queue.len() && #[trigger] drains(
            d,
            node.state,
            queue_work(queue.take(i)),
            moves,
            e,
        ) implies (queue[i] matches Step::Task(u, Some(pm)) ==> only_choice(
        d,
        u as int,
        pm as int,
        e,
    )) by {
        if i < front.len() {
            assert(queue.take(i) =~= front.take(i));
            assert forall|k: int| 0 <= k < i implies !((#[trigger] front.take(i)[k])
                is Linearize) by {
                assert(front.take(i)[k] == front[k]);
            }
            assert(queue_work(queue.take(i)) == work_of(front.take(i)));
            assert(drains(d, node.state, work_of(front.take(i)), moves, e));
            assert(queue[i] == front[i]);
        } else {
            lemma_pins_behind_choice(
                d,
                node.state,
                node.queue,
                t,
                method,
                lin,
                front,
                i,
                moves,
                e,
            );
        }
    }
}

/// Running a primitive keeps what is known of the pins behind it.
pub(crate) proof fn lemma_run_fit<M: PlanModel>(
    d: HtnDomain<M>,
    cfg: SearchConfig,
    node: Node<M::Component>,
    pos: nat,
    t: usize,
    pin: Option<u32>,
)
    requires
        d.wf(),
        fit(d, node, pos),
        node.queue.len() > 0,
        node.queue[0] == Step::Task(t, pin),
        d.tasks@[t as int] is Primitive,
        d.tasks@[t as int]->Primitive_0.ready(node.state),
    ensures
        fit(d, run_primitive(d, cfg, node, t), 0),
        standing(run_primitive(d, cfg, node, t)).work == standing(node).work.skip(1),
        run_primitive(d, cfg, node, t).queue.len() > 0 ==> !(run_primitive(
            d,
            cfg,
            node,
            t,
        ).queue[0] is Linearize),
{
    let child = run_primitive(d, cfg, node, t);
    let queue = child.queue;
    let prim = d.tasks@[t as int]->Primitive_0;
    assert(t < d.tasks@.len());
    assert(d.tasks@[t as int].wf(d.tasks@.len(), d.slots()));
    crate::domain::lemma_after_len(prim, node.state);
    assert forall|i: int| 0 <= i < queue.len() implies !((#[trigger] queue[i]) is Linearize) && (
    queue[i] matches Step::Task(u, _) ==> u < d.tasks@.len()) by {
        assert(queue[i] == node.queue[i + 1]);
    }
    assert(work_of(queue) =~= work_of(node.queue).skip(1));
    assert forall|i: int, moves: Seq<Move>, e: ModelState<M>|
        0 <= i < queue.len() && #[trigger] drains(
            d,
            child.state,
            queue_work(queue.take(i)),
            moves,
            e,
        ) implies (queue[i] matches Step::Task(u, Some(pm)) ==> only_choice(
        d,
        u as int,
        pm as int,
        e,
    )) by {
        let longer = seq![Move::Do(t)] + moves;
        let before = queue_work(node.queue.take(i + 1));
        assert(node.queue.take(i + 1)[0] == node.queue[0]);
        assert(node.queue.take(i + 1).skip(1) =~= queue.take(i));
        assert forall|k: int| 0 <= k < i implies !((#[trigger] queue.take(i)[k]) is Linearize) by {
            assert(queue.take(i)[k] == queue[k]);
        }
        assert(queue_work(queue.take(i)) == work_of(queue.take(i)));
        assert(before.skip(1) =~= work_of(queue.take(i)));
        assert(before[0] == ResumeStep::Task(t as u32));
        assert(longer[0] == Move::Do(t));
        assert(longer.skip(1) =~= moves);
        assert(drains(d, node.state, before, longer, e));
        assert(queue[i] == node.queue[i + 1]);
    }
}

/// Whether a frame may be gone back to.
pub open spec fn frame_fit<M: PlanModel>(d: HtnDomain<M>, f: FrameView<M::Component>) -> bool {
    &&& f.task < d.tasks@.len()
    &&& d.tasks@[f.task as int] is Compound
    &&& f.method < d.tasks@[f.task as int]->Compound_0.methods@.len()
    &&& d.tasks@[f.task as int]->Compound_0.methods@[f.method as int].valid(f.state)
    &&& match d.tasks@[f.task as int]->Compound_0.methods@[f.method as int].order {
        SubtaskOrder::Total => f.lin == 0,
        SubtaskOrder::Partial { preds, orders, first } => f.lin > 0 && f.lin_total == orders,
    }
    &&& fit(d, restored(f, Step::Task(f.task, f.pinned)), 0)
    &&& f.pinned matches Some(pm) ==> f.method == pm && f.resume == pm + 1
}

/// Whether going back to a frame overlooked nothing but the branches offered
/// earlier and the orders of the frame's own method that were tried.
spec fn frame_exhausts<M: PlanModel>(
    d: HtnDomain<M>,
    cfg: SearchConfig,
    f: FrameView<M::Component>,
    p: Progress,
) -> bool {
    forall|moves: Seq<Move>| #[trigger]
        owed(
            d,
            cfg,
            standing(restored(f, Step::Task(f.task, f.pinned))),
            f.g as nat,
            moves,
            p,
        ) ==> moves.len() > 0 && frame_excused(d, f, moves[0])
}

/// Whether a first move is one that going back to a frame does not look into.
pub open spec fn frame_excused<M: PlanModel>(
    d: HtnDomain<M>,
    f: FrameView<M::Component>,
    mv: Move,
) -> bool {
    let c = d.tasks@[f.task as int]->Compound_0;
    mv matches Move::Choose { method, lin } && offered_before(
        c,
        ranked_methods(c, f.state, f.plan.len() as u64),
        f.pinned,
        f.resume,
        method,
    ) && (method == f.method ==> lin == 0 || lin < f.lin)
}

/// What stands at the front of a queue whose front is a compound task's.
pub(crate) proof fn lemma_front_task<M: PlanModel>(
    d: HtnDomain<M>,
    cfg: SearchConfig,
    node: Node<M::Component>,
    t: usize,
    pin: Option<u32>,
    moves: Seq<Move>,
    p: Progress,
)
    requires
        d.wf(),
        fit(d, node, 0) || pin is None,
        node.queue.len() > 0,
        node.queue[0] == Step::Task(t, pin),
        t < d.tasks@.len(),
        pins_hold(d, node.state, node.queue),
        owed(d, cfg, standing(node), node.g as nat, moves, p),
        d.tasks@[t as int] is Compound,
    ensures
        standing(node).work == seq![ResumeStep::Task(t as u32)] + work_of(node.queue.skip(1)),
        moves.len() > 0,
        moves[0] is Choose,
        moves[0]->method < d.tasks@[t as int]->Compound_0.methods@.len(),
        d.tasks@[t as int]->Compound_0.methods@[moves[0]->method as int].valid(node.state),
        has_order(
            d.tasks@[t as int]->Compound_0.methods@[moves[0]->method as int],
            moves[0]->lin,
        ),
        pin matches Some(pm) ==> moves[0]->method == pm,
        make_move(d, standing(node), moves[0]) is Some,
{
    let here = standing(node);
    assert(here.work =~= seq![ResumeStep::Task(t as u32)] + work_of(node.queue.skip(1)));
    assert(here.work[0] == ResumeStep::Task(t as u32));
    lemma_owed_next(d, cfg, here, node.g, moves, p);
    if pin is Some {
        let none = Seq::<Move>::empty();
        assert(queue_work(node.queue.take(0)) =~= Seq::<ResumeStep>::empty());
        assert(drains(d, node.state, queue_work(node.queue.take(0)), none, node.state));
        assert(only_choice(d, t as int, pin->Some_0 as int, node.state));
    }
}

#[verifier::rlimit(40)]
pub(crate) proof fn lemma_explore_exhausts<M: PlanModel>(
    d: HtnDomain<M>,
    cfg: SearchConfig,
    node: Node<M::Component>,
    pos: nat,
    p: Progress,
)
    requires
        d.wf(),
        d.summarized(),
        !cfg.fail_fast,
        fit(d, node, pos),
        explore(d, cfg, node, pos, p).0 is Fail,
    ensures
        progressed(explore(d, cfg, node, pos, p).1, p),
        exhausts(d, cfg, node, pos, explore(d, cfg, node, pos, p).1),
    decreases p.left, 0nat,
{
    let r = explore(d, cfg, node, pos, p);
    let here = standing(node);
    lemma_explore_left(d, cfg, node, pos, p);
    if node.queue.len() == 0 {
        assert forall|moves: Seq<Move>| #[trigger]
            owed(d, cfg, here, node.g as nat, moves, r.1) implies false by {
            if moves.len() > 0 {
                assert(play(d, here, moves) is None);
            }
        }
    } else {
        let p1 = Progress { left: (p.left - 1) as nat, ..p };
        match node.queue[0] {
            Step::Pause => {},
            Step::Linearize { task, method, lin } => {
                let m = d.tasks@[task as int]->Compound_0.methods@[method as int];
                let front = members_at(m, lin as nat);
                let child = Node {
                    queue: front + node.queue.skip(1),
                    mtr: node.mtr.push(method as usize),
                    ..node
                };
                let p2 = traced(
                    cfg,
                    p1,
                    event(d, task as nat, method as nat, TraceOutcome::Selected),
                );
                lemma_members_known(d, task as int, method as int, Seq::empty());
                assert(node.queue.take(1)[0] == node.queue[0]);
                assert(queue_work(node.queue.take(1)) =~= seq![ResumeStep::Task(task)]);
                assert forall|i: int, moves: Seq<Move>, e: ModelState<M>|
                    0 <= i < front.len() && #[trigger] drains(
                        d,
                        node.state,
                        work_of(front.take(i)),
                        moves,
                        e,
                    ) implies (front[i] matches Step::Task(u, Some(pm)) ==> only_choice(
                    d,
                    u as int,
                    pm as int,
                    e,
                )) by {
                    lemma_unpinned_order(m, lin as nat, i);
                }
                lemma_child_fit(
                    d,
                    node,
                    pos,
                    task,
                    method as nat,
                    lin as nat,
                    front,
                    child,
                );
                lemma_explore_exhausts(d, cfg, child, 0, p2);
                assert(here.work.skip(1) =~= work_of(node.queue.skip(1)));
                assert forall|moves: Seq<Move>| #[trigger]
                    owed(d, cfg, here, node.g as nat, moves, r.1) implies moves.len() > 0
                    && excused(d, node, pos, moves[0]) by {
                    assert(here.work[0] == ResumeStep::Task(task));
                    lemma_owed_next(d, cfg, here, node.g, moves, r.1);
                    if moves[0] == (Move::Choose { method: method as nat, lin: lin as nat }) {
                        assert(make_move(d, here, moves[0]) == Some(standing(child)));
                        assert(owed(
                            d,
                            cfg,
                            standing(child),
                            child.g as nat,
                            moves.skip(1),
                            r.1,
                        ));
                        lemma_no_excuse(d, child, moves.skip(1)[0]);
                    }
                }
            },
            Step::Task(t, pin) => {
                assert(t < d.tasks@.len());
                assert(here.work[0] == ResumeStep::Task(t as u32));
                match d.tasks@[t as int] {
                    Task::Goal(_) => {},
                    Task::Primitive(prim) => {
                        if !prim.ready(node.state) || priced_out(
                            cfg,
                            p,
                            node.g,
                            prim.step_cost(node.state),
                        ) {
                            assert forall|moves: Seq<Move>| #[trigger]
                                owed(d, cfg, here, node.g as nat, moves, r.1) implies false by {
                                lemma_owed_next(d, cfg, here, node.g, moves, r.1);
                            }
                        } else {
                            let child = run_primitive(d, cfg, node, t);
                            lemma_run_fit(d, cfg, node, pos, t, pin);
                            lemma_explore_exhausts(d, cfg, child, 0, p1);
                            assert forall|moves: Seq<Move>| #[trigger]
                                owed(d, cfg, here, node.g as nat, moves, r.1) implies false by {
                                lemma_owed_next(d, cfg, here, node.g, moves, r.1);
                                assert(make_move(d, here, moves[0]) == Some(standing(child)));
                                assert(owed(
                                    d,
                                    cfg,
                                    standing(child),
                                    child.g as nat,
                                    moves.skip(1),
                                    r.1,
                                ));
                                lemma_no_excuse(d, child, moves.skip(1)[0]);
                            }
                        }
                    },
                    Task::Compound(c) => {
                        lemma_compound_exhausts(d, cfg, node, pos, p, t, pin);
                    },
                }
            },
        }
    }
}

/// A node that is explored from its first branch excuses nothing.
pub(crate) proof fn lemma_no_excuse<M: PlanModel>(d: HtnDomain<M>, node: Node<M::Component>, mv: Move)
    requires
        node.queue.len() > 0 ==> !(node.queue[0] is Linearize),
    ensures
        !(node.queue.len() > 0 && excused(d, node, 0, mv)),
{
}

/// Without pins no member is pinned, in whichever order.
pub(crate) proof fn lemma_unpinned_order<M: PlanModel>(m: crate::domain::Method<M>, lin: nat, i: int)
    requires
        m.order is Partial,
        0 <= i < members_at(m, lin).len(),
    ensures
        members_at(m, lin)[i] matches Step::Task(t, pin) ==> pin is None,
{
    crate::pruning::lemma_ordered_member(
        m,
        crate::order::topo_orders(m.order->preds@)[lin as int],
        Seq::empty(),
        0,
        i,
    );
}

#[verifier::rlimit(40)]
proof fn lemma_compound_exhausts<M: PlanModel>(
    d: HtnDomain<M>,
    cfg: SearchConfig,
    node: Node<M::Component>,
    pos: nat,
    p: Progress,
    t: usize,
    pin: Option<u32>,
)
    requires
        d.wf(),
        d.summarized(),
        !cfg.fail_fast,
        fit(d, node, pos),
        p.left > 0,
        node.queue.len() > 0,
        node.queue[0] == Step::Task(t, pin),
        t < d.tasks@.len(),
        d.tasks@[t as int] is Compound,
        explore(d, cfg, node, pos, p).0 is Fail,
    ensures
        progressed(explore(d, cfg, node, pos, p).1, p),
        exhausts(d, cfg, node, pos, explore(d, cfg, node, pos, p).1),
    decreases p.left - 1, 2nat,
{
    let r = explore(d, cfg, node, pos, p);
    let here = standing(node);
    let c = d.tasks@[t as int]->Compound_0;
    let nonce = node.plan.len() as u64;
    let ranked = ranked_methods(c, node.state, nonce);
    let p1 = Progress { left: (p.left - 1) as nat, ..p };
    let p2 = if pin is Some || c.policy is FirstMatch {
        p1
    } else {
        rejected(d, cfg, t as nat, ranked, c.methods@.len(), p1)
    };
    assert(d.tasks@[t as int].wf(d.tasks@.len(), d.slots()));
    lemma_rejected_left(d, cfg, t as nat, ranked, c.methods@.len(), p1);
    lemma_pick_left(d, cfg, t as nat, node.state, node.g, prefix_of(node), ranked, pin, pos, p2);
    lemma_pick_valid(d, cfg, t as nat, node.state, node.g, prefix_of(node), nonce, pin, pos, p2);
    lemma_pick_foreseen(d, cfg, t as nat, node.state, node.g, prefix_of(node), ranked, pin, pos, p2);
    lemma_explore_left(d, cfg, node, pos, p);
    let (choice, p3) = pick(d, cfg, t as nat, node.state, node.g, prefix_of(node), ranked, pin, pos, p2);
    assert(here.work =~= seq![ResumeStep::Task(t as u32)] + work_of(node.queue.skip(1)));
    lemma_queue_known(d, node.queue);
    match choice {
        None => {
            assert forall|moves: Seq<Move>| #[trigger]
                owed(d, cfg, here, node.g as nat, moves, r.1) implies moves.len() > 0 && excused(
                d,
                node,
                pos,
                moves[0],
            ) by {
                lemma_front_task(d, cfg, node, t, pin, moves, r.1);
                lemma_pick_exhausts(
                    d,
                    cfg,
                    t as nat,
                    node.state,
                    node.g,
                    prefix_of(node),
                    nonce,
                    pin,
                    pos,
                    p2,
                    moves[0]->method,
                );
                lemma_owed_earlier(d, cfg, here, node.g as nat, moves, r.1, p3);
                if ruled_out(d, cfg, c, moves[0]->method, node.state, node.g, p3) {
                    lemma_ruled_out(
                        d,
                        cfg,
                        here,
                        t as u32,
                        work_of(node.queue.skip(1)),
                        node.g,
                        moves,
                        p3,
                    );
                }
            }
        },
        Some(commit) => {
            let m = c.methods@[commit.method as int];
            let p4 = traced(cfg, p3, event(d, t as nat, commit.method, TraceOutcome::Selected));
            let child = child_of(d, node, t, commit);
            let front = members(m, commit.pins);
            assert(m.wf(d.tasks@.len(), d.slots()));
            lemma_members_work(m, commit.pins);
            lemma_members_known(d, t as int, commit.method as int, commit.pins);
            assert(node.queue.take(1)[0] == node.queue[0]);
            assert(queue_work(node.queue.take(1)) =~= seq![ResumeStep::Task(t as u32)]);
            let tier = choose|tier: crate::search::SweepTier|
                #[trigger] foreseen(d, m, node.state, tier, p2.left) == Some(commit.pins);
            assert forall|i: int, moves: Seq<Move>, e: ModelState<M>|
                0 <= i < front.len() && #[trigger] drains(
                    d,
                    node.state,
                    work_of(front.take(i)),
                    moves,
                    e,
                ) implies (front[i] matches Step::Task(u, Some(pm)) ==> only_choice(
                d,
                u as int,
                pm as int,
                e,
            )) by {
                look_ahead_pins_soundly(
                    d,
                    m,
                    node.state,
                    tier,
                    p2.left,
                    commit.pins,
                    i,
                    moves,
                    e,
                );
            }
            lemma_child_fit(d, node, pos, t as u32, commit.method, 0, front, child);
            lemma_explore_left(d, cfg, child, 0, p4);
            let q = explore(d, cfg, child, 0, p4);
            assert(q.0 is Fail);
            lemma_explore_exhausts(d, cfg, child, 0, p4);
            let f = frame_of(d, node, t, pin, commit);
            let back = restored(f, Step::Task(f.task, f.pinned));
            assert(back.queue =~= node.queue);
            assert(back == node);
            assert(fit(d, back, 0));
            assert(frame_fit(d, f));
            assert(r == after_failure(d, cfg, f, q.1));
            lemma_after_failure_exhausts(d, cfg, f, q.1);
            assert forall|moves: Seq<Move>| #[trigger]
                owed(d, cfg, here, node.g as nat, moves, r.1) implies moves.len() > 0 && excused(
                d,
                node,
                pos,
                moves[0],
            ) by {
                lemma_front_task(d, cfg, node, t, pin, moves, r.1);
                let method = moves[0]->method;
                assert(owed(d, cfg, standing(back), f.g as nat, moves, r.1));
                assert(frame_excused(d, f, moves[0]));
                lemma_pick_exhausts(
                    d,
                    cfg,
                    t as nat,
                    node.state,
                    node.g,
                    prefix_of(node),
                    nonce,
                    pin,
                    pos,
                    p2,
                    method,
                );
                lemma_owed_earlier(d, cfg, here, node.g as nat, moves, r.1, p3);
                if ruled_out(d, cfg, c, method, node.state, node.g, p3) {
                    lemma_ruled_out(
                        d,
                        cfg,
                        here,
                        t as u32,
                        work_of(node.queue.skip(1)),
                        node.g,
                        moves,
                        p3,
                    );
                }
                if method == commit.method {
                    assert(moves[0]->lin == 0);
                    assert(here.work[0] == ResumeStep::Task(t as u32));
                    lemma_owed_earlier(d, cfg, here, node.g as nat, moves, r.1, q.1);
                    lemma_owed_next(d, cfg, here, node.g, moves, q.1);
                    assert(here.work.skip(1) =~= work_of(node.queue.skip(1)));
                    assert(make_move(d, here, moves[0]) == Some(standing(child)));
                    assert(owed(
                        d,
                        cfg,
                        standing(child),
                        child.g as nat,
                        moves.skip(1),
                        q.1,
                    ));
                    lemma_no_excuse(d, child, moves.skip(1)[0]);
                    assert(false);
                }
            }
        },
    }
}

pub(crate) proof fn lemma_queue_known<M: PlanModel>(d: HtnDomain<M>, queue: Seq<Step>)
    requires
        d.wf(),
        known_queue(d, queue),
        queue.len() > 0 ==> !(queue[0] is Linearize),
    ensures
        known_work(d, queue_work(queue)),
{
    let work = queue_work(queue);
    assert forall|i: int| 0 <= i < work.len() implies ((#[trigger] work[i])
        matches ResumeStep::Task(t) ==> t < d.tasks@.len()) by {
        assert(queue[i] matches Step::Task(t, _) ==> t < d.tasks@.len());
    }
}

#[verifier::rlimit(40)]
proof fn lemma_after_failure_exhausts<M: PlanModel>(
    d: HtnDomain<M>,
    cfg: SearchConfig,
    f: FrameView<M::Component>,
    p: Progress,
)
    requires
        d.wf(),
        d.summarized(),
        !cfg.fail_fast,
        frame_fit(d, f),
        after_failure(d, cfg, f, p).0 is Fail,
    ensures
        progressed(after_failure(d, cfg, f, p).1, p),
        frame_exhausts(d, cfg, f, after_failure(d, cfg, f, p).1),
    decreases p.left, 1nat,
{
    let r = after_failure(d, cfg, f, p);
    let p1 = traced(
        cfg,
        p,
        event(d, f.task as nat, f.method as nat, TraceOutcome::Backtracked),
    );
    let back = restored(f, Step::Task(f.task, f.pinned));
    let c = d.tasks@[f.task as int]->Compound_0;
    let m = c.methods@[f.method as int];
    assert(d.tasks@[f.task as int].wf(d.tasks@.len(), d.slots()));
    assert(m.wf(d.tasks@.len(), d.slots()));
    assert(back.queue.skip(1) =~= f.queue);
    if 0 < f.lin < f.lin_total {
        let step = Step::Linearize { task: f.task as u32, method: f.method as u32, lin: f.lin as u32 };
        let node = restored(f, step);
        assert(node.queue.skip(1) =~= f.queue);
        assert(standing(node).work =~= standing(back).work);
        lemma_relinearized_fit(d, f, step);
        let q = explore(d, cfg, node, 0, p1);
        lemma_explore_left(d, cfg, node, 0, p1);
        assert(q.0 is Fail);
        lemma_explore_exhausts(d, cfg, node, 0, p1);
        let f2 = FrameView { lin: f.lin + 1, ..f };
        assert(r == after_failure(d, cfg, f2, q.1));
        assert(restored(f2, Step::Task(f2.task, f2.pinned)) == back);
        lemma_after_failure_exhausts(d, cfg, f2, q.1);
        assert forall|moves: Seq<Move>| #[trigger]
            owed(d, cfg, standing(back), f.g as nat, moves, r.1) implies moves.len() > 0
            && frame_excused(d, f, moves[0]) by {
            assert(owed(
                d,
                cfg,
                standing(restored(f2, Step::Task(f2.task, f2.pinned))),
                f2.g as nat,
                moves,
                r.1,
            ));
            assert(frame_excused(d, f2, moves[0]));
            lemma_owed_earlier(d, cfg, standing(back), f.g as nat, moves, r.1, q.1);
            assert(owed(d, cfg, standing(node), node.g as nat, moves, q.1));
            assert(excused(d, node, 0, moves[0]));
        }
    } else if f.pinned is Some {
        assert forall|moves: Seq<Move>| #[trigger]
            owed(d, cfg, standing(back), f.g as nat, moves, r.1) implies moves.len() > 0
            && frame_excused(d, f, moves[0]) by {
            lemma_front_task(d, cfg, back, f.task, f.pinned, moves, r.1);
        }
    } else {
        lemma_explore_exhausts(d, cfg, back, f.resume, p1);
        assert forall|moves: Seq<Move>| #[trigger]
            owed(d, cfg, standing(back), f.g as nat, moves, r.1) implies moves.len() > 0
            && frame_excused(d, f, moves[0]) by {
            lemma_front_task(d, cfg, back, f.task, f.pinned, moves, r.1);
            assert(owed(d, cfg, standing(back), back.g as nat, moves, r.1));
            assert(excused(d, back, f.resume, moves[0]));
        }
    }
}

/// A frame's node may be explored with its next order in front.
pub(crate) proof fn lemma_relinearized_fit<M: PlanModel>(
    d: HtnDomain<M>,
    f: FrameView<M::Component>,
    step: Step,
)
    requires
        d.wf(),
        frame_fit(d, f),
        0 < f.lin < f.lin_total,
        step == (Step::Linearize { task: f.task as u32, method: f.method as u32, lin: f.lin as u32 }),
    ensures
        fit(d, restored(f, step), 0),
{
    let back = restored(f, Step::Task(f.task, f.pinned));
    let node = restored(f, step);
    assert(d.tasks@[f.task as int].wf(d.tasks@.len(), d.slots()));
    assert forall|i: int| 0 < i < node.queue.len() implies node.queue[i] == back.queue[i] by {}
    assert forall|i: int, moves: Seq<Move>, e: ModelState<M>|
        0 <= i < node.queue.len() && #[trigger] drains(
            d,
            node.state,
            queue_work(node.queue.take(i)),
            moves,
            e,
        ) implies (node.queue[i] matches Step::Task(u, Some(pm)) ==> only_choice(
        d,
        u as int,
        pm as int,
        e,
    )) by {
        if i > 0 {
            assert(node.queue.take(i).skip(1) =~= back.queue.take(i).skip(1));
            assert(node.queue.take(i)[0] == step);
            assert(back.queue.take(i)[0] == back.queue[0]);
            let a = queue_work(node.queue.take(i));
            let b = queue_work(back.queue.take(i));
            assert(a =~= b) by {
                assert(b == work_of(back.queue.take(i)));
                assert forall|k: int| 0 < k < i implies a[k] == b[k] by {
                    assert(node.queue.take(i).skip(1)[k - 1] == back.queue.take(i)[k]);
                }
            }
            assert(drains(d, back.state, queue_work(back.queue.take(i)), moves, e));
            assert(node.queue[i] == back.queue[i]);
        }
    }
}

/// What a search from the start overlooked, should it be exhausted: nothing.
pub(crate) proof fn lemma_searched_exhausts<M: PlanModel>(
    d: HtnDomain<M>,
    cfg: SearchConfig,
    limit: nat,
    work: Seq<ResumeStep>,
    mtr: Seq<usize>,
    s: ModelState<M>,
    trace: Seq<DecompositionTrace>,
    moves: Seq<Move>,
)
    requires
        d.wf(),
        d.summarized(),
        known_work(d, work),
        s.len() == d.slots(),
        !cfg.fail_fast,
        searched(d, cfg, limit, work, mtr, s, trace).0 is Fail,
    ensures
        !owed(
            d,
            cfg,
            Position { state: s, work },
            0,
            moves,
            searched(d, cfg, limit, work, mtr, s, trace).1,
        ),
{
    let node = Node { state: s, queue: start_queue(work), plan: Seq::empty(), mtr, g: 0 };
    let p = Progress {
        left: limit,
        streaks: Seq::new(method_base(d, d.tasks@.len()), |i: int| 0u32),
        best: None,
        cut: None,
        trace,
    };
    assert(standing(node).work =~= work);
    assert forall|i: int| 0 <= i < node.queue.len() implies ((#[trigger] node.queue[i])
        matches Step::Task(t, _) ==> t < d.tasks@.len()) by {
        assert(work[i] matches ResumeStep::Task(t) ==> t < d.tasks@.len());
    }
    lemma_explore_exhausts(d, cfg, node, 0, p);
    let r = searched(d, cfg, limit, work, mtr, s, trace);
    if owed(d, cfg, Position { state: s, work }, 0, moves, r.1) {
        assert(owed(d, cfg, standing(node), node.g as nat, moves, r.1));
        lemma_no_excuse(d, node, moves[0]);
    }
}

/// The search is complete. Where it answers that there is no plan, no run of the
/// network decomposes the work; without look-ahead, none comes even as far as a
/// pause or a goal.
pub proof fn no_plan_means_no_run<M: PlanModel>(
    d: HtnDomain<M>,
    cfg: SearchConfig,
    limit: nat,
    work: Seq<ResumeStep>,
    mtr: Seq<usize>,
    s: ModelState<M>,
    trace: Seq<DecompositionTrace>,
    moves: Seq<Move>,
)
    requires
        d.wf(),
        d.summarized(),
        known_work(d, work),
        s.len() == d.slots(),
        !cfg.fail_fast,
        !cfg.cost_bounded,
        answer(searched(d, cfg, limit, work, mtr, s, trace)) is None,
    ensures
        ({
            let at = Position { state: s, work };
            if cfg.lookahead is Off {
                !finishes(d, at, moves)
            } else {
                !drained(d, at, moves)
            }
        }),
{
    lemma_searched_exhausts(d, cfg, limit, work, mtr, s, trace, moves);
}

/// The cost-bounded search is optimal. Once it has exhausted the network, no run
/// that decomposes the work costs less than the plan it answers with; where it
/// answers with no complete plan, every such run costs infinitely much. Where the
/// look-ahead left a branch out for want of budget, runs that take more moves than
/// the steps left do not count.
pub proof fn best_plan_is_cheapest<M: PlanModel>(
    d: HtnDomain<M>,
    cfg: SearchConfig,
    limit: nat,
    work: Seq<ResumeStep>,
    mtr: Seq<usize>,
    s: ModelState<M>,
    trace: Seq<DecompositionTrace>,
    moves: Seq<Move>,
)
    requires
        d.wf(),
        d.summarized(),
        known_work(d, work),
        s.len() == d.slots(),
        !cfg.fail_fast,
        cfg.cost_bounded,
        searched(d, cfg, limit, work, mtr, s, trace).0 is Fail,
        drained(d, Position { state: s, work }, moves),
        ({
            let p = searched(d, cfg, limit, work, mtr, s, trace).1;
            cfg.lookahead is Off || p.cut is None || moves.len() <= p.left
        }),
    ensures
        ({
            let cost = plan_cost(d, s, steps_of(moves), steps_of(moves).len());
            match answer(searched(d, cfg, limit, work, mtr, s, trace)) {
                Some(best) => if best.status is Complete {
                    plan_cost(d, s, best.plan, best.plan.len()) <= cost
                } else {
                    cost == u64::MAX
                },
                None => cost == u64::MAX,
            }
        }),
{
    let at = Position { state: s, work };
    lemma_searched_exhausts(d, cfg, limit, work, mtr, s, trace, moves);
    runs_cost_what_their_plans_cost(d, at, moves);
    crate::soundness::best_cost_is_the_plans_cost(d, cfg, limit, work, mtr, s, trace);
}

} // verus!
