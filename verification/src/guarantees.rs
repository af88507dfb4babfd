//! What holds of the plans that the planner returns. What is said of
//! [`answers`] here is what [`crate::planner::HtnPlanner::plan`],
//! [`crate::planner::HtnPlanner::plan_traced`] and
//! [`crate::planner::HtnPlanner::resume`] ensure of their results under the
//! built-in strategies.

use crate::completeness::{best_plan_is_cheapest, drained};
use crate::domain::HtnDomain;
use crate::error::HtnResult;
use crate::model::{ModelState, PlanModel};
use crate::planner::{answer, answers, compiles, mtr_before, searched, Plan, ResumeStep};
use crate::priority::{
    a_plan_is_found_where_there_is_a_run, earlier, equal_costs_keep_the_first_plan,
    in_declared_order, lemma_play_without_stops, no_run_is_preferred_over_the_answer,
    within_budget, without_stops,
};
use crate::refinement::{known_work, methods_of, steps_of, Move, Position};
use crate::search::{Outcome, SearchConfig};
use crate::selection::DecompositionTrace;
use crate::soundness::{executable, leads_to, outcome_of, plan_cost, plans_are_runs};
use vstd::prelude::*;

verus! {

/// The tasks that a compiled plan runs, in order.
pub open spec fn steps_in(plan: Plan) -> Seq<usize> {
    Seq::new(plan.steps@.len(), |i: int| plan.steps@[i] as usize)
}

/// A compiled plan runs the steps of the outcome that it was compiled from.
proof fn lemma_steps_in<M: PlanModel>(
    d: HtnDomain<M>,
    plan: Plan,
    outcome: Outcome,
    s: ModelState<M>,
)
    requires
        d.wf(),
        compiles(d, plan, outcome),
        executable(d, s, outcome.plan),
    ensures
        steps_in(plan) == outcome.plan,
{
    assert forall|i: int| 0 <= i < outcome.plan.len() implies steps_in(plan)[i]
        == outcome.plan[i] by {
        assert(outcome.plan[i] < d.tasks@.len());
        assert(plan.steps@[i] == outcome.plan[i] as u32);
    }
    assert(steps_in(plan) =~= outcome.plan);
}

/// Every returned plan, complete or not, can be replayed: from the state that was
/// planned for, each step is a primitive task whose preconditions hold in the
/// state that the steps before it lead to, and goes by that task's name.
pub proof fn returned_plans_can_be_replayed<M: PlanModel>(
    d: HtnDomain<M>,
    cfg: SearchConfig,
    limit: nat,
    work: Seq<ResumeStep>,
    mtr: Seq<usize>,
    s: ModelState<M>,
    trace: Seq<DecompositionTrace>,
    result: HtnResult<Plan>,
)
    requires
        d.wf(),
        known_work(d, work),
        answers(d, result, searched(d, cfg, limit, work, mtr, s, trace)),
    ensures
        result matches Ok(plan) ==> {
            &&& executable(d, s, steps_in(plan))
            &&& plan.names@.len() == plan.steps@.len()
            &&& forall|i: int|
                0 <= i < plan.names@.len() ==> (#[trigger] plan.names@[i])
                    == d.tasks@[plan.steps@[i] as int].name_spec()
        },
{
    if let Ok(plan) = result {
        let outcome = answer(searched(d, cfg, limit, work, mtr, s, trace))->Some_0;
        plans_are_runs(d, cfg, limit, work, mtr, s, trace);
        lemma_steps_in(d, plan, outcome, s);
        assert forall|i: int| 0 <= i < plan.names@.len() implies (#[trigger] plan.names@[i])
            == d.tasks@[plan.steps@[i] as int].name_spec() by {
            assert(outcome.plan[i] < d.tasks@.len());
            assert(steps_in(plan)[i] == outcome.plan[i]);
        }
    }
}

/// What a depth-first search within its budget returns, in a network in declared
/// order, without pause markers and goals on the way: no plan exactly where no run
/// decomposes the work; otherwise the complete plan of such a run, over whose
/// choices those of no other are preferred.
pub proof fn the_least_record_is_returned<M: PlanModel>(
    d: HtnDomain<M>,
    cfg: SearchConfig,
    limit: nat,
    work: Seq<ResumeStep>,
    mtr: Seq<usize>,
    s: ModelState<M>,
    trace: Seq<DecompositionTrace>,
    result: HtnResult<Plan>,
)
    requires
        d.wf(),
        d.summarized(),
        in_declared_order(d),
        known_work(d, work),
        s.len() == d.slots(),
        without_stops(d, work),
        !cfg.fail_fast,
        !cfg.cost_bounded,
        within_budget(cfg, searched(d, cfg, limit, work, mtr, s, trace)),
        answers(d, result, searched(d, cfg, limit, work, mtr, s, trace)),
    ensures
        ({
            let start = Position { state: s, work };
            match result {
                Err(e) => e is NoPlan && forall|moves: Seq<Move>|
                    !#[trigger] drained(d, start, moves),
                Ok(plan) => {
                    &&& plan.status is Complete
                    &&& plan.resume is None
                    &&& exists|moves: Seq<Move>|
                        {
                            &&& #[trigger] drained(d, start, moves)
                            &&& steps_in(plan) == steps_of(moves)
                            &&& plan.mtr@ == mtr + methods_of(moves)
                        }
                    &&& forall|other: Seq<Move>| #[trigger]
                        drained(d, start, other) ==> !mtr_before(
                            mtr + methods_of(other),
                            plan.mtr@,
                            0,
                        )
                },
            }
        }),
{
    let start = Position { state: s, work };
    let r = searched(d, cfg, limit, work, mtr, s, trace);
    a_plan_is_found_where_there_is_a_run(d, cfg, limit, work, mtr, s, trace);
    if let Ok(plan) = result {
        let outcome = answer(r)->Some_0;
        plans_are_runs(d, cfg, limit, work, mtr, s, trace);
        lemma_steps_in(d, plan, outcome, s);
        let (moves, at) = choose|moves: Seq<Move>, at: Position<M::Component>| #[trigger]
            outcome_of(d, start, mtr, outcome, moves, at);
        lemma_play_without_stops(d, start, moves);
        if at.work.len() > 0 {
            assert(at.work[0] is Task);
        }
        assert(drained(d, start, moves));
        assert forall|other: Seq<Move>| #[trigger] drained(d, start, other) implies !mtr_before(
            mtr + methods_of(other),
            plan.mtr@,
            0,
        ) by {
            no_run_is_preferred_over_the_answer(
                d,
                cfg,
                limit,
                work,
                mtr,
                s,
                trace,
                outcome,
                other,
            );
        }
    }
}

/// What a cost-bounded search that exhausts the network within its budget returns:
/// no plan only where every run that decomposes the work costs infinitely much;
/// otherwise the complete plan of such a run. None costs less, and of those that
/// cost no more, none comes earlier in the order of the search.
pub proof fn the_first_cheapest_plan_is_returned<M: PlanModel>(
    d: HtnDomain<M>,
    cfg: SearchConfig,
    limit: nat,
    work: Seq<ResumeStep>,
    mtr: Seq<usize>,
    s: ModelState<M>,
    trace: Seq<DecompositionTrace>,
    result: HtnResult<Plan>,
)
    requires
        d.wf(),
        d.summarized(),
        known_work(d, work),
        s.len() == d.slots(),
        !cfg.fail_fast,
        cfg.cost_bounded,
        within_budget(cfg, searched(d, cfg, limit, work, mtr, s, trace)),
        answers(d, result, searched(d, cfg, limit, work, mtr, s, trace)),
    ensures
        ({
            let start = Position { state: s, work };
            match result {
                Err(e) => e is NoPlan && forall|other: Seq<Move>| #[trigger]
                    drained(d, start, other) ==> plan_cost(
                        d,
                        s,
                        steps_of(other),
                        steps_of(other).len(),
                    ) == u64::MAX,
                Ok(plan) => {
                    let cost = plan_cost(d, s, steps_in(plan), steps_in(plan).len());
                    &&& plan.status is Complete
                    &&& plan.resume is None
                    &&& exists|moves: Seq<Move>|
                        {
                            &&& #[trigger] drained(d, start, moves)
                            &&& steps_in(plan) == steps_of(moves)
                            &&& plan.mtr@ == mtr + methods_of(moves)
                            &&& forall|other: Seq<Move>| #[trigger]
                                drained(d, start, other) ==> {
                                    let price = plan_cost(
                                        d,
                                        s,
                                        steps_of(other),
                                        steps_of(other).len(),
                                    );
                                    &&& cost <= price
                                    &&& price <= cost ==> !earlier(d, start, 0, other, moves)
                                }
                        }
                },
            }
        }),
{
    let start = Position { state: s, work };
    let r = searched(d, cfg, limit, work, mtr, s, trace);
    match result {
        Err(_) => {
            assert forall|other: Seq<Move>| #[trigger]
                drained(d, start, other) implies plan_cost(
                d,
                s,
                steps_of(other),
                steps_of(other).len(),
            ) == u64::MAX by {
                best_plan_is_cheapest(d, cfg, limit, work, mtr, s, trace, other);
            }
        },
        Ok(plan) => {
            let outcome = answer(r)->Some_0;
            plans_are_runs(d, cfg, limit, work, mtr, s, trace);
            lemma_steps_in(d, plan, outcome, s);
            equal_costs_keep_the_first_plan(d, cfg, limit, work, mtr, s, trace, outcome);
            let cost = plan_cost(d, s, outcome.plan, outcome.plan.len());
            let (moves, at) = choose|moves: Seq<Move>, at: Position<M::Component>|
                {
                    &&& #[trigger] leads_to(
                        d,
                        start,
                        mtr,
                        moves,
                        at,
                        outcome.plan,
                        outcome.mtr,
                    )
                    &&& at.work.len() == 0
                    &&& forall|other: Seq<Move>| #[trigger]
                        drained(d, start, other) && plan_cost(
                            d,
                            s,
                            steps_of(other),
                            steps_of(other).len(),
                        ) <= cost && (cfg.lookahead is Off || r.1.cut is None || other.len()
                            <= r.1.left) ==> !earlier(d, start, 0, other, moves)
                };
            assert(drained(d, start, moves));
            assert forall|other: Seq<Move>| #[trigger] drained(d, start, other) implies {
                let price = plan_cost(d, s, steps_of(other), steps_of(other).len());
                &&& cost <= price
                &&& price <= cost ==> !earlier(d, start, 0, other, moves)
            } by {
                best_plan_is_cheapest(d, cfg, limit, work, mtr, s, trace, other);
            }
        },
    }
}

} // verus!
