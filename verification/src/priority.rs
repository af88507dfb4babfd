//! Which of the possible plans a search answers with: the first one in the order
//! in which it tries the branches.

use crate::completeness::{
    best_plan_is_cheapest, cost_limit, drained, excused, fit, frame_excused, frame_fit,
    lemma_child_fit, lemma_explore_exhausts, lemma_front_task, lemma_no_excuse, lemma_owed_next,
    lemma_pick_exhausts, lemma_pick_foreseen, lemma_queue_known, lemma_relinearized_fit,
    lemma_ruled_out, lemma_run_fit, lemma_searched_exhausts, lemma_unpinned_order, no_plan_means_no_run, offered_before,
    owed, progressed, resumes_behind, ruled_out, run_cost, runs_cost_what_their_plans_cost,
};
use crate::domain::{no_goal_members, CompoundTask, HtnDomain, Method, Task};
use crate::model::{ModelState, PlanModel};
use crate::order::SubtaskOrder;
use crate::planner::{answer, mtr_before, searched, start_queue, PlanStatus, ResumeStep};
use crate::pruning::{look_ahead_pins_soundly, only_choice};
use crate::ranking::{ranked_methods, ranking_keeps_every_valid_branch};
use crate::refinement::{
    drains, known_work, lemma_members_work, lemma_next_known, lemma_work_members, make_move, method_work, methods_of,
    play, steps_of, Move, Position,
};
use crate::search::{
    after_failure, child_of, cost_sum, event, explore, foreseen, frame_of, lemma_explore_left,
    lemma_pick_left, lemma_rejected_left, members, members_at, members_from, members_in_order,
    method_base, pick, prefix_of, rejected, restored, run_primitive, traced, work_of, Commit,
    FrameView, Node, Outcome, Prefix, Progress, SearchConfig, Step, SweepTier, Verdict,
};
use crate::selection::{DecompositionTrace, LookaheadMode, TraceOutcome};
use crate::soundness::{
    at_goal, best_cost_is_the_plans_cost, leads_to, lemma_members_known, lemma_pick_valid,
    outcome_of, plan_cost, plans_are_runs, queue_work, standing,
};
use vstd::prelude::*;

verus! {

/// Whether a search tries one branch of a task before another: the orders of a
/// method in turn, and the methods as the task's policy ranks them.
pub open spec fn goes_first<M: PlanModel>(
    c: CompoundTask<M>,
    s: ModelState<M>,
    nonce: u64,
    first: Move,
    second: Move,
) -> bool {
    match (first, second) {
        (Move::Choose { method: a, lin: i }, Move::Choose { method: b, lin: j }) => if a == b {
            i < j
        } else if c.policy is FirstMatch {
            a < b
        } else {
            let ranked = ranked_methods(c, s, nonce);
            exists|x: int, y: int|
                0 <= x < y < ranked.len() && #[trigger] ranked[x] == a && #[trigger] ranked[y] == b
        },
        _ => false,
    }
}

/// Whether a search comes across one run before another: where they part, the
/// branch that the first one takes is tried first. `n` is the number of steps in
/// the plan so far.
pub open spec fn earlier<M: PlanModel>(
    d: HtnDomain<M>,
    at: Position<M::Component>,
    n: nat,
    first: Seq<Move>,
    second: Seq<Move>,
) -> bool
    decreases first.len(),
{
    if first.len() == 0 || second.len() == 0 {
        false
    } else if first[0] == second[0] {
        match make_move(d, at, first[0]) {
            Some(next) => earlier(
                d,
                next,
                n + steps_of(seq![first[0]]).len(),
                first.skip(1),
                second.skip(1),
            ),
            None => false,
        }
    } else {
        match (at.work[0], d.tasks@[at.work[0]->Task_0 as int]) {
            (ResumeStep::Task(_), Task::Compound(c)) => goes_first(
                c,
                at.state,
                n as u64,
                first[0],
                second[0],
            ),
            _ => false,
        }
    }
}

/// Whether an exploration came to a result: a plain one stops with it, a
/// cost-bounded one records it as the best plan and goes on.
spec fn hit(cfg: SearchConfig, r: (Verdict, Progress), p: Progress) -> bool {
    if cfg.cost_bounded {
        r.0 is Fail && cost_limit(r.1.best) < cost_limit(p.best)
    } else {
        r.0 is Stop
    }
}

/// The plan that an exploration came to.
spec fn hit_prefix(cfg: SearchConfig, r: (Verdict, Progress)) -> Prefix {
    if cfg.cost_bounded {
        Prefix { plan: r.1.best->Some_0.plan, mtr: r.1.best->Some_0.mtr }
    } else {
        Prefix { plan: r.0->Stop_0.plan, mtr: r.0->Stop_0.mtr }
    }
}

/// Whether a run would be as good a result as the one that the search came to:
/// for a cost-bounded search, one that costs no more.
spec fn rivals<M: PlanModel>(
    d: HtnDomain<M>,
    cfg: SearchConfig,
    at: Position<M::Component>,
    g: nat,
    moves: Seq<Move>,
    p: Progress,
) -> bool {
    if cfg.cost_bounded {
        &&& drained(d, at, moves)
        &&& cfg.lookahead is Off || p.cut is None || moves.len() <= p.left
        &&& g + run_cost(d, at, moves) <= cost_limit(p.best)
    } else {
        owed(d, cfg, at, g, moves, p)
    }
}

/// Whether a run leads from a node to what an exploration came to.
spec fn comes_to<M: PlanModel>(
    d: HtnDomain<M>,
    cfg: SearchConfig,
    node: Node<M::Component>,
    r: (Verdict, Progress),
    moves: Seq<Move>,
) -> bool {
    let end = play(d, standing(node), moves)->Some_0;
    &&& play(d, standing(node), moves) is Some
    &&& hit_prefix(cfg, r).plan == node.plan + steps_of(moves)
    &&& hit_prefix(cfg, r).mtr == node.mtr + methods_of(moves)
    &&& if cfg.cost_bounded {
        end.work.len() == 0
    } else {
        match r.0->Stop_0.status {
            PlanStatus::Complete => end.work.len() > 0 ==> end.work[0] is Pause || at_goal(
                d,
                end.work,
            ),
            PlanStatus::Paused => end.work.len() > 0 && end.work[0] is Pause,
            PlanStatus::Partial => true,
        }
    }
}

/// Whether no rival of a run comes earlier, but for those that exploring the node
/// does not look into.
spec fn unbeaten<M: PlanModel>(
    d: HtnDomain<M>,
    cfg: SearchConfig,
    node: Node<M::Component>,
    pos: nat,
    moves: Seq<Move>,
    p: Progress,
) -> bool {
    forall|other: Seq<Move>| #[trigger]
        rivals(d, cfg, standing(node), node.g as nat, other, p) && earlier(
            d,
            standing(node),
            node.plan.len(),
            other,
            moves,
        ) ==> excused(d, node, pos, other[0])
}

/// A rival of what was found later was owed earlier.
proof fn lemma_rival_owed<M: PlanModel>(
    d: HtnDomain<M>,
    cfg: SearchConfig,
    at: Position<M::Component>,
    g: nat,
    moves: Seq<Move>,
    late: Progress,
    early: Progress,
)
    requires
        rivals(d, cfg, at, g, moves, late),
        progressed(late, early),
        cfg.cost_bounded ==> cost_limit(late.best) < cost_limit(early.best),
    ensures
        owed(d, cfg, at, g, moves, early),
{
}

/// What a rival starts with.
proof fn lemma_rival_next<M: PlanModel>(
    d: HtnDomain<M>,
    cfg: SearchConfig,
    at: Position<M::Component>,
    g: u64,
    moves: Seq<Move>,
    p: Progress,
)
    requires
        rivals(d, cfg, at, g as nat, moves, p),
        moves.len() > 0,
    ensures
        make_move(d, at, moves[0]) is Some,
        ({
            let next = make_move(d, at, moves[0])->Some_0;
            let cost = match moves[0] {
                Move::Do(t) => d.tasks@[t as int]->Primitive_0.step_cost(at.state),
                Move::Choose { .. } => 0,
            };
            rivals(
                d,
                cfg,
                next,
                if cfg.cost_bounded {
                    cost_sum(g, cost) as nat
                } else {
                    g as nat
                },
                moves.skip(1),
                p,
            )
        }),
{
}

proof fn lemma_moves_cons(mv: Move, moves: Seq<Move>)
    ensures
        steps_of(seq![mv] + moves) == steps_of(seq![mv]) + steps_of(moves),
        methods_of(seq![mv] + moves) == methods_of(seq![mv]) + methods_of(moves),
    decreases moves.len(),
{
    let all = seq![mv] + moves;
    if moves.len() == 0 {
        assert(all =~= seq![mv]);
        assert(steps_of(all) =~= steps_of(seq![mv]) + steps_of(moves));
        assert(methods_of(all) =~= methods_of(seq![mv]) + methods_of(moves));
    } else {
        lemma_moves_cons(mv, moves.drop_last());
        assert(all.drop_last() =~= seq![mv] + moves.drop_last());
        assert(all.last() == moves.last());
        assert(steps_of(all) =~= steps_of(seq![mv]) + steps_of(moves));
        assert(methods_of(all) =~= methods_of(seq![mv]) + methods_of(moves));
    }
}

proof fn lemma_one_move(mv: Move)
    ensures
        steps_of(seq![mv]) == (match mv {
            Move::Do(t) => seq![t],
            Move::Choose { .. } => Seq::<usize>::empty(),
        }),
        methods_of(seq![mv]) == (match mv {
            Move::Do(_) => Seq::<usize>::empty(),
            Move::Choose { method, .. } => seq![method as usize],
        }),
{
    let one = seq![mv];
    assert(one.last() == mv);
    assert(one.drop_last() =~= Seq::<Move>::empty());
    assert(steps_of(one.drop_last()) =~= Seq::<usize>::empty());
    assert(methods_of(one.drop_last()) =~= Seq::<usize>::empty());
    assert(steps_of(one) =~= (match mv {
        Move::Do(t) => seq![t],
        Move::Choose { .. } => Seq::<usize>::empty(),
    }));
    assert(methods_of(one) =~= (match mv {
        Move::Do(_) => Seq::<usize>::empty(),
        Move::Choose { method, .. } => seq![method as usize],
    }));
}

/// Whether a move leads from one node to another.
spec fn steps_to<M: PlanModel>(
    d: HtnDomain<M>,
    cfg: SearchConfig,
    node: Node<M::Component>,
    mv: Move,
    child: Node<M::Component>,
) -> bool {
    &&& make_move(d, standing(node), mv) == Some(standing(child))
    &&& child.queue.len() > 0 ==> !(child.queue[0] is Linearize)
    &&& match mv {
        Move::Do(t) => {
            &&& child.plan == node.plan.push(t)
            &&& child.mtr == node.mtr
            &&& child.g == if cfg.cost_bounded {
                cost_sum(node.g, d.tasks@[t as int]->Primitive_0.step_cost(node.state))
            } else {
                node.g
            }
        },
        Move::Choose { method, .. } => {
            &&& child.plan == node.plan
            &&& child.mtr == node.mtr.push(method as usize)
            &&& child.g == node.g
        },
    }
}

/// What leads from a child leads, with the move to it in front, from its parent;
/// and what does not beat it from the child does not from the parent, should it
/// start with that move.
proof fn lemma_from_parent<M: PlanModel>(
    d: HtnDomain<M>,
    cfg: SearchConfig,
    node: Node<M::Component>,
    mv: Move,
    child: Node<M::Component>,
    r: (Verdict, Progress),
    moves: Seq<Move>,
    p: Progress,
)
    requires
        steps_to(d, cfg, node, mv, child),
        comes_to(d, cfg, child, r, moves),
        unbeaten(d, cfg, child, 0, moves, p),
    ensures
        comes_to(d, cfg, node, r, seq![mv] + moves),
        forall|other: Seq<Move>| #[trigger]
            rivals(d, cfg, standing(node), node.g as nat, other, p) && earlier(
                d,
                standing(node),
                node.plan.len(),
                other,
                seq![mv] + moves,
            ) ==> other[0] != mv,
{
    let all = seq![mv] + moves;
    lemma_moves_cons(mv, moves);
    lemma_one_move(mv);
    assert(all[0] == mv);
    assert(all.skip(1) =~= moves);
    assert(hit_prefix(cfg, r).plan =~= node.plan + steps_of(all));
    assert(hit_prefix(cfg, r).mtr =~= node.mtr + methods_of(all));
    assert forall|other: Seq<Move>| #[trigger]
        rivals(d, cfg, standing(node), node.g as nat, other, p) && earlier(
            d,
            standing(node),
            node.plan.len(),
            other,
            all,
        ) implies other[0] != mv by {
        if other[0] == mv {
            lemma_rival_next(d, cfg, standing(node), node.g, other, p);
            assert(rivals(
                d,
                cfg,
                standing(child),
                child.g as nat,
                other.skip(1),
                p,
            ));
            assert(earlier(d, standing(child), child.plan.len(), other.skip(1), moves));
            assert(excused(d, child, 0, other.skip(1)[0]));
            assert(other.skip(1).len() > 0);
            if child.queue.len() == 0 {
                assert(standing(child).work.len() == 0);
                assert(make_move(d, standing(child), moves[0]) is None);
                assert(play(d, standing(child), moves) is None);
            }
            lemma_no_excuse(d, child, other.skip(1)[0]);
        }
    }
}

/// Exploring leaves progress behind in nothing, and a new best plan is a cheaper
/// one.
proof fn lemma_explore_progressed<M: PlanModel>(
    d: HtnDomain<M>,
    cfg: SearchConfig,
    node: Node<M::Component>,
    pos: nat,
    p: Progress,
)
    ensures
        progressed(explore(d, cfg, node, pos, p).1, p),
        explore(d, cfg, node, pos, p).1.best == p.best || cost_limit(
            explore(d, cfg, node, pos, p).1.best,
        ) < cost_limit(p.best),
        !cfg.cost_bounded ==> explore(d, cfg, node, pos, p).1.best == p.best,
    decreases p.left, 0nat,
{
    if node.queue.len() > 0 && p.left > 0 {
        let p1 = Progress { left: (p.left - 1) as nat, ..p };
        match node.queue[0] {
            Step::Pause => {},
            Step::Linearize { task, method, lin } => {
                let m = d.tasks@[task as int]->Compound_0.methods@[method as int];
                let p2 = traced(
                    cfg,
                    p1,
                    event(d, task as nat, method as nat, TraceOutcome::Selected),
                );
                lemma_explore_progressed(
                    d,
                    cfg,
                    Node {
                        queue: members_at(m, lin as nat) + node.queue.skip(1),
                        mtr: node.mtr.push(method as usize),
                        ..node
                    },
                    0,
                    p2,
                );
            },
            Step::Task(t, pin) => match d.tasks@[t as int] {
                Task::Goal(_) => {},
                Task::Primitive(prim) => {
                    lemma_explore_progressed(d, cfg, run_primitive(d, cfg, node, t), 0, p1);
                },
                Task::Compound(c) => {
                    let ranked = ranked_methods(c, node.state, node.plan.len() as u64);
                    let p2 = if pin is Some || c.policy is FirstMatch {
                        p1
                    } else {
                        rejected(d, cfg, t as nat, ranked, c.methods@.len(), p1)
                    };
                    let here = prefix_of(node);
                    lemma_rejected_left(d, cfg, t as nat, ranked, c.methods@.len(), p1);
                    lemma_pick_left(d, cfg, t as nat, node.state, node.g, here, ranked, pin, pos, p2);
                    let (choice, p3) = pick(
                        d,
                        cfg,
                        t as nat,
                        node.state,
                        node.g,
                        here,
                        ranked,
                        pin,
                        pos,
                        p2,
                    );
                    if let Some(commit) = choice {
                        let p4 = traced(
                            cfg,
                            p3,
                            event(d, t as nat, commit.method, TraceOutcome::Selected),
                        );
                        let child = child_of(d, node, t, commit);
                        lemma_explore_progressed(d, cfg, child, 0, p4);
                        let r = explore(d, cfg, child, 0, p4);
                        if r.0 is Fail && r.1.left < p.left {
                            lemma_after_failure_progressed(
                                d,
                                cfg,
                                frame_of(d, node, t, pin, commit),
                                r.1,
                            );
                        }
                    }
                },
            },
        }
    }
}

proof fn lemma_after_failure_progressed<M: PlanModel>(
    d: HtnDomain<M>,
    cfg: SearchConfig,
    f: FrameView<M::Component>,
    p: Progress,
)
    ensures
        progressed(after_failure(d, cfg, f, p).1, p),
        after_failure(d, cfg, f, p).1.best == p.best || cost_limit(
            after_failure(d, cfg, f, p).1.best,
        ) < cost_limit(p.best),
        !cfg.cost_bounded ==> after_failure(d, cfg, f, p).1.best == p.best,
    decreases p.left, 1nat,
{
    let p1 = traced(
        cfg,
        p,
        event(d, f.task as nat, f.method as nat, TraceOutcome::Backtracked),
    );
    if 0 < f.lin < f.lin_total {
        let step = Step::Linearize { task: f.task as u32, method: f.method as u32, lin: f.lin as u32 };
        let node = restored(f, step);
        lemma_explore_progressed(d, cfg, node, 0, p1);
        let r = explore(d, cfg, node, 0, p1);
        if r.0 is Fail && r.1.left < p.left {
            lemma_after_failure_progressed(d, cfg, FrameView { lin: f.lin + 1, ..f }, r.1);
        }
    } else if f.pinned is None {
        lemma_explore_progressed(d, cfg, restored(f, Step::Task(f.task, f.pinned)), f.resume, p1);
    }
}

/// A branch that goes before the one that was picked was offered before the
/// position behind it.
proof fn lemma_first_was_offered<M: PlanModel>(
    c: CompoundTask<M>,
    s: ModelState<M>,
    nonce: u64,
    pin: Option<u32>,
    resume: nat,
    first: Move,
    picked: Move,
)
    requires
        c.methods@.len() <= u32::MAX,
        first is Choose,
        picked is Choose,
        pin matches Some(pm) ==> first->method == pm,
        goes_first(c, s, nonce, first, picked),
        resumes_behind(c, ranked_methods(c, s, nonce), pin, resume, picked->method),
    ensures
        offered_before(c, ranked_methods(c, s, nonce), pin, resume, first->method),
{
    let ranked = ranked_methods(c, s, nonce);
    ranking_keeps_every_valid_branch(c, s, nonce);
    if pin is None && !(c.policy is FirstMatch) {
        if first->method == picked->method {
            assert(ranked[resume - 1] == first->method);
        } else {
            let (x, y) = choose|x: int, y: int|
                0 <= x < y < ranked.len() && #[trigger] ranked[x] == first->method
                    && #[trigger] ranked[y] == picked->method;
            assert(y == resume - 1);
            assert(ranked[x] == first->method);
        }
    }
}

/// What an exploration comes to is the first of its rivals.
#[verifier::rlimit(60)]
proof fn lemma_explore_first<M: PlanModel>(
    d: HtnDomain<M>,
    cfg: SearchConfig,
    node: Node<M::Component>,
    pos: nat,
    p: Progress,
) -> (moves: Seq<Move>)
    requires
        d.wf(),
        d.summarized(),
        !cfg.fail_fast,
        fit(d, node, pos),
        hit(cfg, explore(d, cfg, node, pos, p), p),
    ensures
        comes_to(d, cfg, node, explore(d, cfg, node, pos, p), moves),
        unbeaten(d, cfg, node, pos, moves, explore(d, cfg, node, pos, p).1),
        node.queue.len() > 0 && moves.len() > 0 ==> (node.queue[0] matches Step::Linearize {
            task,
            method,
            lin,
        } ==> moves[0] == (Move::Choose { method: method as nat, lin: lin as nat })),
    decreases p.left, 0nat,
{
    let r = explore(d, cfg, node, pos, p);
    let here = standing(node);
    let none = Seq::<Move>::empty();
    assert(node.plan + steps_of(none) =~= node.plan);
    assert(node.mtr + methods_of(none) =~= node.mtr);
    if node.queue.len() == 0 {
        assert(here.work.len() == 0);
        none
    } else if p.left == 0 {
        none
    } else {
        let p1 = Progress { left: (p.left - 1) as nat, ..p };
        match node.queue[0] {
            Step::Pause => {
                assert(here.work[0] is Pause);
                none
            },
            Step::Linearize { task, method, lin } => {
                let m = d.tasks@[task as int]->Compound_0.methods@[method as int];
                let front = members_at(m, lin as nat);
                let child = Node {
                    queue: front + node.queue.skip(1),
                    mtr: node.mtr.push(method as usize),
                    ..node
                };
                let p2 = traced(
                    cfg,
                    p1,
                    event(d, task as nat, method as nat, TraceOutcome::Selected),
                );
                let mv = Move::Choose { method: method as nat, lin: lin as nat };
                lemma_linearized_child(d, node, pos, task, method, lin, child);
                let moves = lemma_explore_first(d, cfg, child, 0, p2);
                assert(steps_to(d, cfg, node, mv, child));
                lemma_from_parent(d, cfg, node, mv, child, r, moves, r.1);
                seq![mv] + moves
            },
            Step::Task(t, pin) => {
                assert(t < d.tasks@.len());
                assert(here.work[0] == ResumeStep::Task(t as u32));
                match d.tasks@[t as int] {
                    Task::Goal(_) => {
                        assert(at_goal(d, here.work));
                        none
                    },
                    Task::Primitive(prim) => {
                        let child = run_primitive(d, cfg, node, t);
                        let mv = Move::Do(t);
                        lemma_run_fit(d, cfg, node, pos, t, pin);
                        let moves = lemma_explore_first(d, cfg, child, 0, p1);
                        assert(steps_to(d, cfg, node, mv, child));
                        lemma_from_parent(d, cfg, node, mv, child, r, moves, r.1);
                        let all = seq![mv] + moves;
                        assert(all[0] == mv);
                        assert forall|other: Seq<Move>| #[trigger]
                            rivals(d, cfg, here, node.g as nat, other, r.1) && earlier(
                                d,
                                here,
                                node.plan.len(),
                                other,
                                all,
                            ) implies excused(d, node, pos, other[0]) by {
                            lemma_rival_next(d, cfg, here, node.g, other, r.1);
                        }
                        all
                    },
                    Task::Compound(c) => lemma_compound_first(d, cfg, node, pos, p, t, pin),
                }
            },
        }
    }
}

/// Committing a method again with another order leads to a node that may be
/// explored.
proof fn lemma_linearized_child<M: PlanModel>(
    d: HtnDomain<M>,
    node: Node<M::Component>,
    pos: nat,
    task: u32,
    method: u32,
    lin: u32,
    child: Node<M::Component>,
)
    requires
        d.wf(),
        fit(d, node, pos),
        node.queue.len() > 0,
        node.queue[0] == (Step::Linearize { task, method, lin }),
        child == (Node {
            queue: members_at(
                d.tasks@[task as int]->Compound_0.methods@[method as int],
                lin as nat,
            ) + node.queue.skip(1),
            mtr: node.mtr.push(method as usize),
            ..node
        }),
    ensures
        fit(d, child, 0),
        child.queue.len() > 0 ==> !(child.queue[0] is Linearize),
        make_move(
            d,
            standing(node),
            Move::Choose { method: method as nat, lin: lin as nat },
        ) == Some(standing(child)),
{
    let m = d.tasks@[task as int]->Compound_0.methods@[method as int];
    let front = members_at(m, lin as nat);
    let here = standing(node);
    lemma_members_known(d, task as int, method as int, Seq::empty());
    assert(node.queue.take(1)[0] == node.queue[0]);
    assert(queue_work(node.queue.take(1)) =~= seq![ResumeStep::Task(task)]);
    assert forall|i: int, moves: Seq<Move>, e: ModelState<M>|
        0 <= i < front.len() && #[trigger] drains(
            d,
            node.state,
            work_of(front.take(i)),
            moves,
            e,
        ) implies (front[i] matches Step::Task(u, Some(pm)) ==> only_choice(
        d,
        u as int,
        pm as int,
        e,
    )) by {
        lemma_unpinned_order(m, lin as nat, i);
    }
    lemma_child_fit(d, node, pos, task, method as nat, lin as nat, front, child);
    assert(here.work.skip(1) =~= work_of(node.queue.skip(1)));
    assert(here.work[0] == ResumeStep::Task(task));
}

/// Committing a method that was picked leads to a node that may be explored, and
/// leaves a frame that may be gone back to.
proof fn lemma_committed_child<M: PlanModel>(
    d: HtnDomain<M>,
    cfg: SearchConfig,
    node: Node<M::Component>,
    pos: nat,
    t: usize,
    pin: Option<u32>,
    commit: Commit,
    tier: SweepTier,
    budget: nat,
)
    requires
        d.wf(),
        d.summarized(),
        fit(d, node, pos),
        node.queue.len() > 0,
        node.queue[0] == Step::Task(t, pin),
        t < d.tasks@.len(),
        d.tasks@[t as int] is Compound,
        commit.method < d.tasks@[t as int]->Compound_0.methods@.len(),
        d.tasks@[t as int]->Compound_0.methods@[commit.method as int].valid(node.state),
        foreseen(
            d,
            d.tasks@[t as int]->Compound_0.methods@[commit.method as int],
            node.state,
            tier,
            budget,
        ) == Some(commit.pins),
        resumes_behind(
            d.tasks@[t as int]->Compound_0,
            ranked_methods(
                d.tasks@[t as int]->Compound_0,
                node.state,
                node.plan.len() as u64,
            ),
            pin,
            commit.resume,
            commit.method,
        ),
    ensures
        fit(d, child_of(d, node, t, commit), 0),
        frame_fit(d, frame_of(d, node, t, pin, commit)),
        restored(frame_of(d, node, t, pin, commit), Step::Task(t, pin)) == node,
        steps_to(
            d,
            cfg,
            node,
            Move::Choose { method: commit.method, lin: 0 },
            child_of(d, node, t, commit),
        ),
{
    let c = d.tasks@[t as int]->Compound_0;
    let m = c.methods@[commit.method as int];
    let child = child_of(d, node, t, commit);
    let front = members(m, commit.pins);
    let here = standing(node);
    assert(d.tasks@[t as int].wf(d.tasks@.len(), d.slots()));
    assert(m.wf(d.tasks@.len(), d.slots()));
    lemma_members_work(m, commit.pins);
    lemma_members_known(d, t as int, commit.method as int, commit.pins);
    assert(node.queue.take(1)[0] == node.queue[0]);
    assert(queue_work(node.queue.take(1)) =~= seq![ResumeStep::Task(t as u32)]);
    assert forall|i: int, moves: Seq<Move>, e: ModelState<M>|
        0 <= i < front.len() && #[trigger] drains(
            d,
            node.state,
            work_of(front.take(i)),
            moves,
            e,
        ) implies (front[i] matches Step::Task(u, Some(pm)) ==> only_choice(
        d,
        u as int,
        pm as int,
        e,
    )) by {
        look_ahead_pins_soundly(d, m, node.state, tier, budget, commit.pins, i, moves, e);
    }
    lemma_child_fit(d, node, pos, t as u32, commit.method, 0, front, child);
    let f = frame_of(d, node, t, pin, commit);
    let back = restored(f, Step::Task(t, pin));
    assert(back.queue =~= node.queue);
    assert(back == node);
    assert(fit(d, back, 0));
    assert(here.work =~= seq![ResumeStep::Task(t as u32)] + work_of(node.queue.skip(1)));
    assert(here.work.skip(1) =~= work_of(node.queue.skip(1)));
}

#[verifier::rlimit(60)]
proof fn lemma_compound_first<M: PlanModel>(
    d: HtnDomain<M>,
    cfg: SearchConfig,
    node: Node<M::Component>,
    pos: nat,
    p: Progress,
    t: usize,
    pin: Option<u32>,
) -> (moves: Seq<Move>)
    requires
        d.wf(),
        d.summarized(),
        !cfg.fail_fast,
        fit(d, node, pos),
        p.left > 0,
        node.queue.len() > 0,
        node.queue[0] == Step::Task(t, pin),
        t < d.tasks@.len(),
        d.tasks@[t as int] is Compound,
        hit(cfg, explore(d, cfg, node, pos, p), p),
    ensures
        comes_to(d, cfg, node, explore(d, cfg, node, pos, p), moves),
        unbeaten(d, cfg, node, pos, moves, explore(d, cfg, node, pos, p).1),
    decreases p.left - 1, 2nat,
{
    let r = explore(d, cfg, node, pos, p);
    let here = standing(node);
    let c = d.tasks@[t as int]->Compound_0;
    let nonce = node.plan.len() as u64;
    let ranked = ranked_methods(c, node.state, nonce);
    let prefix = prefix_of(node);
    let p1 = Progress { left: (p.left - 1) as nat, ..p };
    let p2 = if pin is Some || c.policy is FirstMatch {
        p1
    } else {
        rejected(d, cfg, t as nat, ranked, c.methods@.len(), p1)
    };
    assert(d.tasks@[t as int].wf(d.tasks@.len(), d.slots()));
    lemma_rejected_left(d, cfg, t as nat, ranked, c.methods@.len(), p1);
    lemma_pick_left(d, cfg, t as nat, node.state, node.g, prefix, ranked, pin, pos, p2);
    lemma_pick_valid(d, cfg, t as nat, node.state, node.g, prefix, nonce, pin, pos, p2);
    lemma_pick_foreseen(d, cfg, t as nat, node.state, node.g, prefix, ranked, pin, pos, p2);
    let (choice, p3) = pick(d, cfg, t as nat, node.state, node.g, prefix, ranked, pin, pos, p2);
    let commit = choice->Some_0;
    let m = c.methods@[commit.method as int];
    let p4 = traced(cfg, p3, event(d, t as nat, commit.method, TraceOutcome::Selected));
    let child = child_of(d, node, t, commit);
    let tier = choose|tier: SweepTier|
        #[trigger] foreseen(d, m, node.state, tier, p2.left) == Some(commit.pins);
    lemma_committed_child(d, cfg, node, pos, t, pin, commit, tier, p2.left);
    let picked = Move::Choose { method: commit.method, lin: 0 };
    assert(steps_to(d, cfg, node, picked, child));
    lemma_explore_left(d, cfg, child, 0, p4);
    lemma_explore_progressed(d, cfg, child, 0, p4);
    let q = explore(d, cfg, child, 0, p4);
    let f = frame_of(d, node, t, pin, commit);
    let moves = if q.0 is Stop {
        let rest = lemma_explore_first(d, cfg, child, 0, p4);
        lemma_from_parent(d, cfg, node, picked, child, r, rest, r.1);
        seq![picked] + rest
    } else {
        assert(r == after_failure(d, cfg, f, q.1));
        lemma_after_failure_progressed(d, cfg, f, q.1);
        lemma_explore_exhausts(d, cfg, child, 0, p4);
        if hit(cfg, r, q.1) {
            lemma_after_failure_first(d, cfg, f, q.1)
        } else {
            assert(r.1.best == q.1.best);
            let rest = lemma_explore_first(d, cfg, child, 0, p4);
            assert(unbeaten(d, cfg, child, 0, rest, r.1)) by {
                assert forall|other: Seq<Move>| #[trigger]
                    rivals(d, cfg, standing(child), child.g as nat, other, r.1) && earlier(
                        d,
                        standing(child),
                        child.plan.len(),
                        other,
                        rest,
                    ) implies excused(d, child, 0, other[0]) by {
                    assert(rivals(d, cfg, standing(child), child.g as nat, other, q.1));
                }
            }
            assert(comes_to(d, cfg, child, r, rest));
            lemma_from_parent(d, cfg, node, picked, child, r, rest, r.1);
            seq![picked] + rest
        }
    };
    lemma_queue_known(d, node.queue);
    assert forall|other: Seq<Move>| #[trigger]
        rivals(d, cfg, here, node.g as nat, other, r.1) && earlier(
            d,
            here,
            node.plan.len(),
            other,
            moves,
        ) implies excused(d, node, pos, other[0]) by {
        // What was found was found behind this pick, so the rival was owed there.
        assert(progressed(r.1, p3));
        lemma_rival_owed(d, cfg, here, node.g as nat, other, r.1, p3);
        lemma_front_task(d, cfg, node, t, pin, other, p3);
        let method = other[0]->method;
        lemma_pick_exhausts(
            d,
            cfg,
            t as nat,
            node.state,
            node.g,
            prefix,
            nonce,
            pin,
            pos,
            p2,
            method,
        );
        if ruled_out(d, cfg, c, method, node.state, node.g, p3) {
            lemma_ruled_out(
                d,
                cfg,
                here,
                t as u32,
                work_of(node.queue.skip(1)),
                node.g,
                other,
                p3,
            );
        }
        assert(here.work =~= seq![ResumeStep::Task(t as u32)] + work_of(node.queue.skip(1)));
        if q.0 is Fail && hit(cfg, r, q.1) {
            assert(frame_excused(d, f, other[0]));
            if method == commit.method {
                assert(other[0] == picked);
                lemma_rival_owed(d, cfg, here, node.g as nat, other, r.1, q.1);
                lemma_owed_next(d, cfg, here, node.g, other, q.1);
                assert(owed(d, cfg, standing(child), child.g as nat, other.skip(1), q.1));
                lemma_no_excuse(d, child, other.skip(1)[0]);
                assert(false);
            }
        } else {
            assert(moves[0] == picked);
            assert(other[0] != picked);
            assert(goes_first(c, node.state, nonce, other[0], picked));
            lemma_first_was_offered(c, node.state, nonce, pin, commit.resume, other[0], picked);
        }
    }
    moves
}

/// What going back to a frame comes to is the first of its rivals.
#[verifier::rlimit(60)]
proof fn lemma_after_failure_first<M: PlanModel>(
    d: HtnDomain<M>,
    cfg: SearchConfig,
    f: FrameView<M::Component>,
    p: Progress,
) -> (moves: Seq<Move>)
    requires
        d.wf(),
        d.summarized(),
        !cfg.fail_fast,
        frame_fit(d, f),
        resumes_behind(
            d.tasks@[f.task as int]->Compound_0,
            ranked_methods(
                d.tasks@[f.task as int]->Compound_0,
                f.state,
                f.plan.len() as u64,
            ),
            f.pinned,
            f.resume,
            f.method as nat,
        ),
        hit(cfg, after_failure(d, cfg, f, p), p),
    ensures
        ({
            let back = restored(f, Step::Task(f.task, f.pinned));
            let r = after_failure(d, cfg, f, p);
            &&& comes_to(d, cfg, back, r, moves)
            &&& forall|other: Seq<Move>| #[trigger]
                rivals(d, cfg, standing(back), f.g as nat, other, r.1) && earlier(
                    d,
                    standing(back),
                    f.plan.len(),
                    other,
                    moves,
                ) ==> frame_excused(d, f, other[0])
        }),
    decreases p.left, 1nat,
{
    let r = after_failure(d, cfg, f, p);
    let p1 = traced(
        cfg,
        p,
        event(d, f.task as nat, f.method as nat, TraceOutcome::Backtracked),
    );
    let back = restored(f, Step::Task(f.task, f.pinned));
    let here = standing(back);
    let c = d.tasks@[f.task as int]->Compound_0;
    let m = c.methods@[f.method as int];
    let nonce = f.plan.len() as u64;
    assert(d.tasks@[f.task as int].wf(d.tasks@.len(), d.slots()));
    assert(m.wf(d.tasks@.len(), d.slots()));
    assert(back.queue.skip(1) =~= f.queue);
    assert(here.work[0] == ResumeStep::Task(f.task as u32));
    lemma_after_failure_progressed(d, cfg, f, p);
    if 0 < f.lin < f.lin_total {
        let step = Step::Linearize { task: f.task as u32, method: f.method as u32, lin: f.lin as u32 };
        let node = restored(f, step);
        assert(node.queue.skip(1) =~= f.queue);
        assert(standing(node).work =~= here.work);
        lemma_relinearized_fit(d, f, step);
        let q = explore(d, cfg, node, 0, p1);
        lemma_explore_left(d, cfg, node, 0, p1);
        lemma_explore_progressed(d, cfg, node, 0, p1);
        let f2 = FrameView { lin: f.lin + 1, ..f };
        let retried = Move::Choose { method: f.method as nat, lin: f.lin };
        if q.0 is Fail {
            assert(r == after_failure(d, cfg, f2, q.1));
            lemma_after_failure_progressed(d, cfg, f2, q.1);
            lemma_explore_exhausts(d, cfg, node, 0, p1);
        }
        if q.0 is Fail && hit(cfg, r, q.1) {
            assert(restored(f2, Step::Task(f2.task, f2.pinned)) == back);
            let moves = lemma_after_failure_first(d, cfg, f2, q.1);
            assert forall|other: Seq<Move>| #[trigger]
                rivals(d, cfg, here, f.g as nat, other, r.1) && earlier(
                    d,
                    here,
                    f.plan.len(),
                    other,
                    moves,
                ) implies frame_excused(d, f, other[0]) by {
                assert(frame_excused(d, f2, other[0]));
                lemma_rival_owed(d, cfg, here, f.g as nat, other, r.1, q.1);
                assert(owed(d, cfg, standing(node), node.g as nat, other, q.1));
                assert(excused(d, node, 0, other[0]));
            }
            moves
        } else {
            let moves = lemma_explore_first(d, cfg, node, 0, p1);
            assert(moves.len() > 0 ==> moves[0] == retried);
            assert forall|other: Seq<Move>| #[trigger]
                rivals(d, cfg, here, f.g as nat, other, r.1) && earlier(
                    d,
                    here,
                    f.plan.len(),
                    other,
                    moves,
                ) implies frame_excused(d, f, other[0]) by {
                assert(rivals(d, cfg, standing(node), node.g as nat, other, q.1));
                assert(excused(d, node, 0, other[0]));
                assert(other[0] != retried);
                lemma_rival_owed(d, cfg, here, f.g as nat, other, r.1, p);
                lemma_front_task(d, cfg, back, f.task, f.pinned, other, p);
                assert(goes_first(c, f.state, nonce, other[0], retried));
                lemma_first_was_offered(
                    c,
                    f.state,
                    nonce,
                    f.pinned,
                    f.resume,
                    other[0],
                    retried,
                );
            }
            assert(comes_to(d, cfg, back, r, moves));
            moves
        }
    } else {
        let moves = lemma_explore_first(d, cfg, back, f.resume, p1);
        assert forall|other: Seq<Move>| #[trigger]
            rivals(d, cfg, here, f.g as nat, other, r.1) && earlier(
                d,
                here,
                f.plan.len(),
                other,
                moves,
            ) implies frame_excused(d, f, other[0]) by {
            assert(excused(d, back, f.resume, other[0]));
            lemma_rival_owed(d, cfg, here, f.g as nat, other, r.1, p);
            lemma_front_task(d, cfg, back, f.task, f.pinned, other, p);
        }
        moves
    }
}

/// What a search from the start comes to is the first of its rivals.
proof fn lemma_searched_first<M: PlanModel>(
    d: HtnDomain<M>,
    cfg: SearchConfig,
    limit: nat,
    work: Seq<ResumeStep>,
    mtr: Seq<usize>,
    s: ModelState<M>,
    trace: Seq<DecompositionTrace>,
) -> (moves: Seq<Move>)
    requires
        d.wf(),
        d.summarized(),
        known_work(d, work),
        s.len() == d.slots(),
        !cfg.fail_fast,
        if cfg.cost_bounded {
            let r = searched(d, cfg, limit, work, mtr, s, trace);
            r.0 is Fail && r.1.best is Some
        } else {
            searched(d, cfg, limit, work, mtr, s, trace).0 is Stop
        },
    ensures
        ({
            let start = Position { state: s, work };
            let r = searched(d, cfg, limit, work, mtr, s, trace);
            let end = play(d, start, moves)->Some_0;
            &&& leads_to(
                d,
                start,
                mtr,
                moves,
                end,
                hit_prefix(cfg, r).plan,
                hit_prefix(cfg, r).mtr,
            )
            &&& cfg.cost_bounded ==> end.work.len() == 0
            &&& !cfg.cost_bounded && r.0->Stop_0.status is Complete && end.work.len() > 0
                ==> end.work[0] is Pause || at_goal(d, end.work)
            &&& forall|other: Seq<Move>| #[trigger]
                rivals(d, cfg, start, 0, other, r.1) ==> !earlier(d, start, 0, other, moves)
        }),
{
    let node = Node { state: s, queue: start_queue(work), plan: Seq::empty(), mtr, g: 0 };
    let start = Position { state: s, work };
    let p = Progress {
        left: limit,
        streaks: Seq::new(method_base(d, d.tasks@.len()), |i: int| 0u32),
        best: None,
        cut: None,
        trace,
    };
    assert(standing(node).work =~= work);
    assert(standing(node) == start);
    assert forall|i: int| 0 <= i < node.queue.len() implies ((#[trigger] node.queue[i])
        matches Step::Task(t, _) ==> t < d.tasks@.len()) by {
        assert(work[i] matches ResumeStep::Task(t) ==> t < d.tasks@.len());
    }
    let r = explore(d, cfg, node, 0, p);
    assert(r == searched(d, cfg, limit, work, mtr, s, trace));
    lemma_explore_progressed(d, cfg, node, 0, p);
    let moves = lemma_explore_first(d, cfg, node, 0, p);
    assert(node.plan + steps_of(moves) =~= steps_of(moves));
    assert forall|other: Seq<Move>| #[trigger]
        rivals(d, cfg, start, 0, other, r.1) implies !earlier(d, start, 0, other, moves) by {
        if earlier(d, start, 0, other, moves) {
            assert(rivals(d, cfg, standing(node), node.g as nat, other, r.1));
            assert(excused(d, node, 0, other[0]));
            if node.queue.len() == 0 {
                assert(make_move(d, start, moves[0]) is None);
                assert(play(d, start, moves) is None);
            }
            lemma_no_excuse(d, node, other[0]);
        }
    }
    moves
}

/// The depth-first search answers with the first run in its own order: no run
/// that decomposes the work is one that it comes across earlier; without
/// look-ahead, none that comes as far as a pause or a goal. Where the look-ahead
/// left a branch out for want of budget, runs that take more moves than the steps
/// left do not count.
pub proof fn the_first_run_is_answered<M: PlanModel>(
    d: HtnDomain<M>,
    cfg: SearchConfig,
    limit: nat,
    work: Seq<ResumeStep>,
    mtr: Seq<usize>,
    s: ModelState<M>,
    trace: Seq<DecompositionTrace>,
    outcome: Outcome,
)
    requires
        d.wf(),
        d.summarized(),
        known_work(d, work),
        s.len() == d.slots(),
        !cfg.fail_fast,
        !cfg.cost_bounded,
        answer(searched(d, cfg, limit, work, mtr, s, trace)) == Some(outcome),
    ensures
        ({
            let start = Position { state: s, work };
            let p = searched(d, cfg, limit, work, mtr, s, trace).1;
            exists|moves: Seq<Move>, at: Position<M::Component>|
                {
                    &&& #[trigger] leads_to(
                        d,
                        start,
                        mtr,
                        moves,
                        at,
                        outcome.plan,
                        outcome.mtr,
                    )
                    &&& forall|other: Seq<Move>| #[trigger]
                        owed(d, cfg, start, 0, other, p) ==> !earlier(d, start, 0, other, moves)
                }
        }),
{
    let start = Position { state: s, work };
    let r = searched(d, cfg, limit, work, mtr, s, trace);
    lemma_best_is_finite(d, cfg, limit, work, mtr, s, trace);
    if r.0 is Stop {
        let moves = lemma_searched_first(d, cfg, limit, work, mtr, s, trace);
        let at = play(d, start, moves)->Some_0;
        assert forall|other: Seq<Move>| #[trigger]
            owed(d, cfg, start, 0, other, r.1) implies !earlier(d, start, 0, other, moves) by {
            assert(rivals(d, cfg, start, 0, other, r.1));
        }
        assert(leads_to(d, start, mtr, moves, at, outcome.plan, outcome.mtr));
    } else {
        plans_are_runs(d, cfg, limit, work, mtr, s, trace);
        let (moves, at) = choose|moves: Seq<Move>, at: Position<M::Component>| #[trigger]
            outcome_of(d, start, mtr, outcome, moves, at);
        assert forall|other: Seq<Move>| #[trigger]
            owed(d, cfg, start, 0, other, r.1) implies !earlier(d, start, 0, other, moves) by {
            lemma_searched_exhausts(d, cfg, limit, work, mtr, s, trace, other);
        }
        assert(leads_to(d, start, mtr, moves, at, outcome.plan, outcome.mtr));
    }
}

/// Whether every task takes its first valid method, and every method runs its
/// members as declared.
pub open spec fn in_declared_order<M: PlanModel>(d: HtnDomain<M>) -> bool {
    forall|t: int, i: int|
        0 <= t < d.tasks@.len() && d.tasks@[t] is Compound ==> {
            &&& d.tasks@[t]->Compound_0.policy is FirstMatch
            &&& 0 <= i < d.tasks@[t]->Compound_0.methods@.len() ==> (
            #[trigger] d.tasks@[t]->Compound_0.methods@[i]).order is Total
        }
}

proof fn lemma_mtr_shifted(front: Seq<usize>, a: Seq<usize>, b: Seq<usize>, k: nat)
    ensures
        mtr_before(front + a, front + b, front.len() + k) == mtr_before(a, b, k),
    decreases a.len() - k,
{
    if k < a.len() && k < b.len() {
        assert((front + a)[(front.len() + k) as int] == a[k as int]);
        assert((front + b)[(front.len() + k) as int] == b[k as int]);
        lemma_mtr_shifted(front, a, b, k + 1);
    }
}

proof fn lemma_mtr_behind(front: Seq<usize>, a: Seq<usize>, b: Seq<usize>, k: nat)
    requires
        k <= front.len(),
    ensures
        mtr_before(front + a, front + b, k) == mtr_before(a, b, 0),
    decreases front.len() - k,
{
    if k < front.len() {
        assert((front + a)[k as int] == front[k as int]);
        assert((front + b)[k as int] == front[k as int]);
        lemma_mtr_behind(front, a, b, k + 1);
    } else {
        lemma_mtr_shifted(front, a, b, 0);
    }
}

/// In declared order, a complete run whose choices are preferred comes earlier.
proof fn lemma_preferred_comes_earlier<M: PlanModel>(
    d: HtnDomain<M>,
    at: Position<M::Component>,
    n: nat,
    other: Seq<Move>,
    moves: Seq<Move>,
)
    requires
        d.wf(),
        in_declared_order(d),
        known_work(d, at.work),
        drained(d, at, other),
        play(d, at, moves) is Some,
        mtr_before(methods_of(other), methods_of(moves), 0),
    ensures
        earlier(d, at, n, other, moves),
    decreases other.len(),
{
    if moves.len() > 0 && other.len() == 0 {
        assert(make_move(d, at, moves[0]) is None);
    } else if moves.len() > 0 {
        let a = other[0];
        let b = moves[0];
        assert(other =~= seq![a] + other.skip(1));
        assert(moves =~= seq![b] + moves.skip(1));
        lemma_moves_cons(a, other.skip(1));
        lemma_moves_cons(b, moves.skip(1));
        lemma_one_move(a);
        lemma_one_move(b);
        assert(make_move(d, at, a) is Some);
        assert(make_move(d, at, b) is Some);
        let t = at.work[0]->Task_0 as int;
        assert(at.work[0] is Task);
        assert(t < d.tasks@.len());
        assert(d.tasks@[t].wf(d.tasks@.len(), d.slots()));
        lemma_mtr_behind(methods_of(seq![a]), methods_of(other.skip(1)), methods_of(moves.skip(1)), 0);
        if d.tasks@[t] is Compound {
            let c = d.tasks@[t]->Compound_0;
            assert(c.methods@[a->method as int].order is Total);
            assert(c.methods@[b->method as int].order is Total);
            assert(methods_of(other)[0] == a->method);
            assert(methods_of(moves)[0] == b->method);
        }
        if a == b {
            let next = make_move(d, at, a)->Some_0;
            lemma_next_known(d, at, a);
            lemma_preferred_comes_earlier(
                d,
                next,
                n + steps_of(seq![a]).len(),
                other.skip(1),
                moves.skip(1),
            );
        }
    }
}

/// In declared order, the least record wins: no run that decomposes the work makes
/// choices that are preferred over those of the plan that the depth-first search
/// answers with. Where the look-ahead left a branch out for want of budget, runs
/// that take more moves than the steps left do not count.
pub proof fn no_run_is_preferred_over_the_answer<M: PlanModel>(
    d: HtnDomain<M>,
    cfg: SearchConfig,
    limit: nat,
    work: Seq<ResumeStep>,
    mtr: Seq<usize>,
    s: ModelState<M>,
    trace: Seq<DecompositionTrace>,
    outcome: Outcome,
    other: Seq<Move>,
)
    requires
        d.wf(),
        d.summarized(),
        in_declared_order(d),
        known_work(d, work),
        s.len() == d.slots(),
        !cfg.fail_fast,
        !cfg.cost_bounded,
        answer(searched(d, cfg, limit, work, mtr, s, trace)) == Some(outcome),
        drained(d, Position { state: s, work }, other),
        ({
            let p = searched(d, cfg, limit, work, mtr, s, trace).1;
            cfg.lookahead is Off || p.cut is None || other.len() <= p.left
        }),
    ensures
        !mtr_before(mtr + methods_of(other), outcome.mtr, 0),
{
    let start = Position { state: s, work };
    let r = searched(d, cfg, limit, work, mtr, s, trace);
    lemma_best_is_finite(d, cfg, limit, work, mtr, s, trace);
    assert(owed(d, cfg, start, 0, other, r.1));
    if r.0 is Fail {
        lemma_searched_exhausts(d, cfg, limit, work, mtr, s, trace, other);
    }
    let moves = lemma_searched_first(d, cfg, limit, work, mtr, s, trace);
    assert(rivals(d, cfg, start, 0, other, r.1));
    lemma_mtr_behind(mtr, methods_of(other), methods_of(moves), 0);
    if mtr_before(methods_of(other), methods_of(moves), 0) {
        lemma_preferred_comes_earlier(d, start, 0, other, moves);
    }
}

/// Whether work and the members of every method hold neither pause markers nor
/// goals, so that a search ends only where all work is decomposed.
pub open spec fn without_stops<M: PlanModel>(d: HtnDomain<M>, work: Seq<ResumeStep>) -> bool {
    &&& no_goal_members(d)
    &&& forall|t: int, i: int|
        0 <= t < d.tasks@.len() && d.tasks@[t] is Compound && 0 <= i
            < d.tasks@[t]->Compound_0.methods@.len() ==> (
        #[trigger] d.tasks@[t]->Compound_0.methods@[i]).pause_positions@.len() == 0
    &&& no_goal_queued(d, work)
}

/// Whether work is tasks alone, and none of them is a goal.
pub open spec fn no_goal_queued<M: PlanModel>(d: HtnDomain<M>, work: Seq<ResumeStep>) -> bool {
    forall|i: int|
        0 <= i < work.len() ==> ((#[trigger] work[i]) matches ResumeStep::Task(t)
            && !(d.tasks@[t as int] is Goal))
}

proof fn lemma_total_unpaused<M: PlanModel>(m: Method<M>, pins: Seq<(usize, usize)>, pos: nat)
    requires
        m.pause_positions@.len() == 0,
    ensures
        forall|i: int|
            0 <= i < members_from(m, pins, pos).len() ==> (#[trigger] members_from(
                m,
                pins,
                pos,
            )[i]) is Task,
    decreases m.subtasks@.len() - pos,
{
    if pos < m.subtasks@.len() {
        lemma_total_unpaused(m, pins, pos + 1);
    }
}

proof fn lemma_ordered_unpaused<M: PlanModel>(
    m: Method<M>,
    order: Seq<u8>,
    pins: Seq<(usize, usize)>,
    k: nat,
)
    ensures
        forall|i: int|
            0 <= i < members_in_order(m, order, pins, k).len() ==> (#[trigger] members_in_order(
                m,
                order,
                pins,
                k,
            )[i]) is Task,
    decreases order.len() - k,
{
    if k < order.len() {
        lemma_ordered_unpaused(m, order, pins, k + 1);
    }
}

/// Without pause markers and goals, a run comes to none.
pub(crate) proof fn lemma_play_without_stops<M: PlanModel>(
    d: HtnDomain<M>,
    at: Position<M::Component>,
    moves: Seq<Move>,
)
    requires
        d.wf(),
        without_stops(d, at.work),
        known_work(d, at.work),
        play(d, at, moves) is Some,
    ensures
        without_stops(d, play(d, at, moves)->Some_0.work),
        known_work(d, play(d, at, moves)->Some_0.work),
    decreases moves.len(),
{
    if moves.len() > 0 {
        let next = make_move(d, at, moves[0])->Some_0;
        lemma_next_known(d, at, moves[0]);
        if let Move::Choose { method, lin } = moves[0] {
            let m = d.tasks@[at.work[0]->Task_0 as int]->Compound_0.methods@[method as int];
            assert(d.tasks@[at.work[0]->Task_0 as int].wf(d.tasks@.len(), d.slots()));
            assert(m.wf(d.tasks@.len(), d.slots()));
            lemma_work_members(m, lin);
            assert(m.pause_positions@.len() == 0);
            match m.order {
                SubtaskOrder::Total => {
                    lemma_total_unpaused(m, Seq::empty(), 0);
                },
                SubtaskOrder::Partial { preds, orders, first } => {
                    lemma_ordered_unpaused(
                        m,
                        crate::order::topo_orders(preds@)[lin as int],
                        Seq::empty(),
                        0,
                    );
                },
            }
        }
        assert forall|i: int| 0 <= i < next.work.len() implies ((#[trigger] next.work[i])
            matches ResumeStep::Task(t) && !(d.tasks@[t as int] is Goal)) by {
            match moves[0] {
                Move::Do(_) => {
                    assert(next.work[i] == at.work[i + 1]);
                },
                Move::Choose { method, lin } => {
                    let m = d.tasks@[at.work[0]->Task_0 as int]->Compound_0.methods@[method as int];
                    let front = method_work(m, lin);
                    if i >= front.len() {
                        assert(next.work[i] == at.work[i - front.len() + 1]);
                    } else {
                        assert(next.work[i] == front[i]);
                        assert(front[i] is Task);
                        let k = choose|k: int|
                            0 <= k < m.subtasks@.len() && m.subtasks@[k] == front[i]->Task_0;
                        assert(!(d.tasks@[m.subtasks@[k] as int] is Goal));
                    }
                },
            }
        }
        lemma_play_without_stops(d, next, moves.skip(1));
    }
}

/// Whether a search came to its end within its budget: it left no branch out for
/// want of it, and a plain search did not run out of it, while a cost-bounded one
/// exhausted the network.
pub open spec fn within_budget(cfg: SearchConfig, r: (Verdict, Progress)) -> bool {
    &&& r.1.cut is None
    &&& if cfg.cost_bounded {
        r.0 is Fail
    } else {
        !(r.0 matches Verdict::Stop(outcome) && outcome.status is Partial)
    }
}

/// Without pause markers and goals, and within its budget, the depth-first search
/// answers with a complete plan exactly where some run decomposes the work.
pub proof fn a_plan_is_found_where_there_is_a_run<M: PlanModel>(
    d: HtnDomain<M>,
    cfg: SearchConfig,
    limit: nat,
    work: Seq<ResumeStep>,
    mtr: Seq<usize>,
    s: ModelState<M>,
    trace: Seq<DecompositionTrace>,
)
    requires
        d.wf(),
        d.summarized(),
        known_work(d, work),
        s.len() == d.slots(),
        without_stops(d, work),
        !cfg.fail_fast,
        !cfg.cost_bounded,
        within_budget(cfg, searched(d, cfg, limit, work, mtr, s, trace)),
    ensures
        match answer(searched(d, cfg, limit, work, mtr, s, trace)) {
            Some(outcome) => outcome.status is Complete && outcome.resume is None && exists|
                moves: Seq<Move>,
            | #[trigger] drained(d, Position { state: s, work }, moves),
            None => forall|moves: Seq<Move>|
                !#[trigger] drained(d, Position { state: s, work }, moves),
        },
{
    let start = Position { state: s, work };
    let r = searched(d, cfg, limit, work, mtr, s, trace);
    plans_are_runs(d, cfg, limit, work, mtr, s, trace);
    lemma_best_is_finite(d, cfg, limit, work, mtr, s, trace);
    match answer(r) {
        Some(outcome) => {
            let (moves, at) = choose|moves: Seq<Move>, at: Position<M::Component>| #[trigger]
                outcome_of(d, start, mtr, outcome, moves, at);
            lemma_play_without_stops(d, start, moves);
            if at.work.len() > 0 {
                assert(at.work[0] is Task);
            }
            assert(drained(d, start, moves));
        },
        None => {
            assert forall|moves: Seq<Move>| !#[trigger] drained(d, start, moves) by {
                no_plan_means_no_run(d, cfg, limit, work, mtr, s, trace, moves);
            }
        },
    }
}

/// The cost-bounded search keeps the first of equals: no run that decomposes the
/// work at the cost of the best plan, or at less, is one that the search comes
/// across earlier. Where the look-ahead left a branch out for want of budget, runs
/// that take more moves than the steps left do not count.
pub proof fn equal_costs_keep_the_first_plan<M: PlanModel>(
    d: HtnDomain<M>,
    cfg: SearchConfig,
    limit: nat,
    work: Seq<ResumeStep>,
    mtr: Seq<usize>,
    s: ModelState<M>,
    trace: Seq<DecompositionTrace>,
    outcome: Outcome,
)
    requires
        d.wf(),
        d.summarized(),
        known_work(d, work),
        s.len() == d.slots(),
        !cfg.fail_fast,
        cfg.cost_bounded,
        searched(d, cfg, limit, work, mtr, s, trace).0 is Fail,
        answer(searched(d, cfg, limit, work, mtr, s, trace)) == Some(outcome),
        outcome.status is Complete,
    ensures
        ({
            let start = Position { state: s, work };
            let p = searched(d, cfg, limit, work, mtr, s, trace).1;
            exists|moves: Seq<Move>, at: Position<M::Component>|
                {
                    &&& #[trigger] leads_to(
                        d,
                        start,
                        mtr,
                        moves,
                        at,
                        outcome.plan,
                        outcome.mtr,
                    )
                    &&& at.work.len() == 0
                    &&& forall|other: Seq<Move>| #[trigger]
                        drained(d, start, other) && plan_cost(
                            d,
                            s,
                            steps_of(other),
                            steps_of(other).len(),
                        ) <= plan_cost(d, s, outcome.plan, outcome.plan.len()) && (cfg.lookahead
                            is Off || p.cut is None || other.len() <= p.left) ==> !earlier(
                            d,
                            start,
                            0,
                            other,
                            moves,
                        )
                }
        }),
{
    let start = Position { state: s, work };
    let r = searched(d, cfg, limit, work, mtr, s, trace);
    let p = r.1;
    assert(p.best is Some);
    let moves = lemma_searched_first(d, cfg, limit, work, mtr, s, trace);
    let at = play(d, start, moves)->Some_0;
    best_cost_is_the_plans_cost(d, cfg, limit, work, mtr, s, trace);
    lemma_best_is_finite(d, cfg, limit, work, mtr, s, trace);
    assert forall|other: Seq<Move>| #[trigger]
        drained(d, start, other) && plan_cost(d, s, steps_of(other), steps_of(other).len())
            <= plan_cost(d, s, outcome.plan, outcome.plan.len()) && (cfg.lookahead is Off || p.cut
            is None || other.len() <= p.left) implies !earlier(d, start, 0, other, moves) by {
        runs_cost_what_their_plans_cost(d, start, other);
        assert(rivals(d, cfg, start, 0, other, p));
    }
    assert(leads_to(d, start, mtr, moves, at, outcome.plan, outcome.mtr));
}

/// A best plan costs less than what counts as infinite, and only a cost-bounded
/// search records one.
proof fn lemma_best_is_finite<M: PlanModel>(
    d: HtnDomain<M>,
    cfg: SearchConfig,
    limit: nat,
    work: Seq<ResumeStep>,
    mtr: Seq<usize>,
    s: ModelState<M>,
    trace: Seq<DecompositionTrace>,
)
    ensures
        searched(d, cfg, limit, work, mtr, s, trace).1.best matches Some(b) ==> cfg.cost_bounded
            && b.cost < u64::MAX,
{
    let node = Node { state: s, queue: start_queue(work), plan: Seq::empty(), mtr, g: 0 };
    let p = Progress {
        left: limit,
        streaks: Seq::new(method_base(d, d.tasks@.len()), |i: int| 0u32),
        best: None,
        cut: None,
        trace,
    };
    lemma_explore_progressed(d, cfg, node, 0, p);
}

/// Of two runs that decompose the same work, one comes earlier, or they are the
/// same.
pub proof fn one_of_two_runs_comes_earlier<M: PlanModel>(
    d: HtnDomain<M>,
    at: Position<M::Component>,
    n: nat,
    a: Seq<Move>,
    b: Seq<Move>,
)
    requires
        d.wf(),
        known_work(d, at.work),
        drained(d, at, a),
        drained(d, at, b),
    ensures
        a == b || earlier(d, at, n, a, b) || earlier(d, at, n, b, a),
    decreases a.len(),
{
    if a.len() == 0 {
        if b.len() > 0 {
            assert(make_move(d, at, b[0]) is None);
        }
        assert(a =~= b);
    } else if b.len() == 0 {
        assert(make_move(d, at, a[0]) is None);
    } else {
        assert(make_move(d, at, a[0]) is Some);
        assert(make_move(d, at, b[0]) is Some);
        let t = at.work[0]->Task_0 as int;
        assert(at.work[0] is Task);
        assert(t < d.tasks@.len());
        assert(d.tasks@[t].wf(d.tasks@.len(), d.slots()));
        if a[0] == b[0] {
            let next = make_move(d, at, a[0])->Some_0;
            lemma_next_known(d, at, a[0]);
            one_of_two_runs_comes_earlier(
                d,
                next,
                n + steps_of(seq![a[0]]).len(),
                a.skip(1),
                b.skip(1),
            );
            if a.skip(1) == b.skip(1) {
                assert(a =~= seq![a[0]] + a.skip(1));
                assert(b =~= seq![b[0]] + b.skip(1));
            }
        } else {
            let c = d.tasks@[t]->Compound_0;
            let ranked = ranked_methods(c, at.state, n as u64);
            ranking_keeps_every_valid_branch(c, at.state, n as u64);
            if a[0]->method != b[0]->method && !(c.policy is FirstMatch) {
                assert(ranked.contains(a[0]->method as u32));
                assert(ranked.contains(b[0]->method as u32));
                let x = ranked.index_of(a[0]->method as u32);
                let y = ranked.index_of(b[0]->method as u32);
                assert(ranked[x] == a[0]->method);
                assert(ranked[y] == b[0]->method);
            }
        }
    }
}

/// Within its budget the look-ahead changes no answer: in a network without pause
/// markers and goals, two searches that differ in nothing but when the look-ahead
/// runs answer with the same plan and the same choices, or both with none.
pub proof fn look_ahead_changes_no_answer<M: PlanModel>(
    d: HtnDomain<M>,
    cfg: SearchConfig,
    lookahead: LookaheadMode,
    limit: nat,
    work: Seq<ResumeStep>,
    mtr: Seq<usize>,
    s: ModelState<M>,
    trace: Seq<DecompositionTrace>,
)
    requires
        d.wf(),
        d.summarized(),
        known_work(d, work),
        s.len() == d.slots(),
        without_stops(d, work),
        !cfg.fail_fast,
        within_budget(cfg, searched(d, cfg, limit, work, mtr, s, trace)),
        within_budget(
            cfg,
            searched(d, SearchConfig { lookahead, ..cfg }, limit, work, mtr, s, trace),
        ),
    ensures
        answer(searched(d, cfg, limit, work, mtr, s, trace)) == answer(
            searched(d, SearchConfig { lookahead, ..cfg }, limit, work, mtr, s, trace),
        ),
{
    let start = Position { state: s, work };
    let other = SearchConfig { lookahead, ..cfg };
    let r1 = searched(d, cfg, limit, work, mtr, s, trace);
    let r2 = searched(d, other, limit, work, mtr, s, trace);
    if cfg.cost_bounded {
        lemma_same_best(d, cfg, lookahead, limit, work, mtr, s, trace);
    } else {
        a_plan_is_found_where_there_is_a_run(d, cfg, limit, work, mtr, s, trace);
        a_plan_is_found_where_there_is_a_run(d, other, limit, work, mtr, s, trace);
        lemma_best_is_finite(d, cfg, limit, work, mtr, s, trace);
        lemma_best_is_finite(d, other, limit, work, mtr, s, trace);
        if r1.0 is Stop && r2.0 is Stop {
            let a = lemma_searched_first(d, cfg, limit, work, mtr, s, trace);
            let b = lemma_searched_first(d, other, limit, work, mtr, s, trace);
            lemma_play_without_stops(d, start, a);
            lemma_play_without_stops(d, start, b);
            let end_a = play(d, start, a)->Some_0;
            let end_b = play(d, start, b)->Some_0;
            if end_a.work.len() > 0 {
                assert(end_a.work[0] is Task);
            }
            if end_b.work.len() > 0 {
                assert(end_b.work[0] is Task);
            }
            assert(rivals(d, cfg, start, 0, b, r1.1));
            assert(rivals(d, other, start, 0, a, r2.1));
            one_of_two_runs_comes_earlier(d, start, 0, a, b);
        }
    }
}

/// Two exhausted cost-bounded searches record the same best plan.
proof fn lemma_same_best<M: PlanModel>(
    d: HtnDomain<M>,
    cfg: SearchConfig,
    lookahead: LookaheadMode,
    limit: nat,
    work: Seq<ResumeStep>,
    mtr: Seq<usize>,
    s: ModelState<M>,
    trace: Seq<DecompositionTrace>,
)
    requires
        d.wf(),
        d.summarized(),
        known_work(d, work),
        s.len() == d.slots(),
        !cfg.fail_fast,
        cfg.cost_bounded,
        within_budget(cfg, searched(d, cfg, limit, work, mtr, s, trace)),
        within_budget(
            cfg,
            searched(d, SearchConfig { lookahead, ..cfg }, limit, work, mtr, s, trace),
        ),
    ensures
        answer(searched(d, cfg, limit, work, mtr, s, trace)) == answer(
            searched(d, SearchConfig { lookahead, ..cfg }, limit, work, mtr, s, trace),
        ),
{
    let start = Position { state: s, work };
    let other = SearchConfig { lookahead, ..cfg };
    let r1 = searched(d, cfg, limit, work, mtr, s, trace);
    let r2 = searched(d, other, limit, work, mtr, s, trace);
    best_cost_is_the_plans_cost(d, cfg, limit, work, mtr, s, trace);
    best_cost_is_the_plans_cost(d, other, limit, work, mtr, s, trace);
    lemma_best_is_finite(d, cfg, limit, work, mtr, s, trace);
    lemma_best_is_finite(d, other, limit, work, mtr, s, trace);
    if r1.1.best is Some {
        let a = lemma_searched_first(d, cfg, limit, work, mtr, s, trace);
        best_plan_is_cheapest(d, other, limit, work, mtr, s, trace, a);
    }
    if r2.1.best is Some {
        let b = lemma_searched_first(d, other, limit, work, mtr, s, trace);
        best_plan_is_cheapest(d, cfg, limit, work, mtr, s, trace, b);
    }
    if r1.1.best is Some && r2.1.best is Some {
        let a = lemma_searched_first(d, cfg, limit, work, mtr, s, trace);
        let b = lemma_searched_first(d, other, limit, work, mtr, s, trace);
        best_plan_is_cheapest(d, other, limit, work, mtr, s, trace, a);
        best_plan_is_cheapest(d, cfg, limit, work, mtr, s, trace, b);
        runs_cost_what_their_plans_cost(d, start, a);
        runs_cost_what_their_plans_cost(d, start, b);
        assert(rivals(d, cfg, start, 0, b, r1.1));
        assert(rivals(d, other, start, 0, a, r2.1));
        one_of_two_runs_comes_earlier(d, start, 0, a, b);
    }
}

} // verus!
