//! The driver's decisions: what an agent does in its turn.
//!
//! The driver gives every agent one turn per run. A turn plans if the agent has
//! no plan, checks the preconditions of the plan's next step against the real
//! world, and executes that step: it dispatches the step's action, commits the
//! step's effects, and advances the cursor. Where the check fails the plan is
//! dropped, and the agent plans again from reality in the same turn, once.
//!
//! This module decides; the caller performs. Each function takes the agent and
//! what came of the last [`TurnAction`], and says what to do next.

use crate::domain::{writes_of, HtnDomain, Task};
use crate::error::HtnResult;
use crate::model::{lemma_apply_all_frame, some_writes, ModelState, PlanModel};
use crate::planner::{
    answers, searched, HtnPlanner, Plan, PlanRoot, ResumeStep,
};
use crate::selection::{
    DecompositionTrace, HtnSearchStrategy, LookaheadMode, SearchOverride, Searcher,
};
use crate::state::{copy_indices, PlanState};
use vstd::prelude::*;

verus! {

/// The per-entity AI component: the current plan and its cursor.
pub struct HtnAgent {
    /// The current forward plan, if one has been planned.
    pub plan: Option<Plan>,
    /// Index of the next step to execute.
    pub cursor: usize,
    /// How many more runs the agent sits planless before it may plan again.
    pub plan_deferral: u32,
}

impl Default for HtnAgent {
    fn default() -> (a: HtnAgent)
        ensures
            a.plan is None,
            a.cursor == 0,
            a.plan_deferral == 0,
    {
        HtnAgent { plan: None, cursor: 0, plan_deferral: 0 }
    }
}

/// Throttle: an agent with this component plans at most once every `n` runs
/// while it sits planless. Executing a plan is never delayed; `n <= 1` disables
/// the throttle.
#[derive(Debug, Clone, Copy, PartialEq, Eq, Structural)]
pub struct PlanEvery(pub u32);

impl Default for PlanEvery {
    fn default() -> (p: PlanEvery)
        ensures
            p.0 == 0,
    {
        PlanEvery(0)
    }
}

/// The planner's configuration: domain and planner tuning.
pub struct HtnConfig<M: PlanModel, S> {
    /// The domain that agents plan against.
    pub domain: HtnDomain<M>,
    /// The search strategy, unless an agent overrides it.
    pub strategy: HtnSearchStrategy<S>,
    /// The forward planner's look-ahead mode.
    pub lookahead: LookaheadMode,
    /// The forward planner's step budget.
    pub sanity_limit: usize,
    /// Whether decisions are traced.
    pub debug_trace: bool,
}

impl<M: PlanModel, S> HtnConfig<M, S> {
    /// A configuration with default planner tuning.
    pub fn new(domain: HtnDomain<M>) -> (c: HtnConfig<M, S>)
        ensures
            c.domain == domain,
            c.strategy is DepthFirst,
            c.lookahead is Adaptive,
            c.sanity_limit == 100,
            !c.debug_trace,
    {
        HtnConfig {
            domain,
            strategy: HtnSearchStrategy::DepthFirst,
            lookahead: LookaheadMode::Adaptive,
            sanity_limit: 100,
            debug_trace: false,
        }
    }

    /// Sets the search strategy.
    pub fn with_strategy(self, strategy: HtnSearchStrategy<S>) -> (c: HtnConfig<M, S>)
        ensures
            c == (HtnConfig { strategy, ..self }),
    {
        HtnConfig { strategy, ..self }
    }

    /// Sets the step budget.
    pub fn with_sanity_limit(self, limit: usize) -> (c: HtnConfig<M, S>)
        ensures
            c == (HtnConfig { sanity_limit: limit, ..self }),
    {
        HtnConfig { sanity_limit: limit, ..self }
    }

    /// Enables or disables look-ahead.
    pub fn with_lookahead(self, enabled: bool) -> (c: HtnConfig<M, S>)
        ensures
            c == (HtnConfig {
                lookahead: if enabled {
                    LookaheadMode::Always
                } else {
                    LookaheadMode::Off
                },
                ..self
            }),
    {
        let lookahead = if enabled {
            LookaheadMode::Always
        } else {
            LookaheadMode::Off
        };
        HtnConfig { lookahead, ..self }
    }

    /// Sets the look-ahead mode.
    pub fn with_lookahead_mode(self, mode: LookaheadMode) -> (c: HtnConfig<M, S>)
        ensures
            c == (HtnConfig { lookahead: mode, ..self }),
    {
        HtnConfig { lookahead: mode, ..self }
    }

    /// Traces decisions, or stops tracing them.
    pub fn with_debug_trace(self, enabled: bool) -> (c: HtnConfig<M, S>)
        ensures
            c == (HtnConfig { debug_trace: enabled, ..self }),
    {
        HtnConfig { debug_trace: enabled, ..self }
    }
}

/// What a turn asks the caller to do.
#[derive(Debug, Clone, Copy, PartialEq, Eq, Structural)]
pub enum TurnAction {
    /// Refresh the scratchpad from the real components, plan against it, and
    /// report through [`planned`].
    Plan,
    /// Refresh the scratchpad, check the preconditions of the primitive at this
    /// index against it, and report through [`checked`].
    Check(usize),
    /// Execute the primitive at this index, and report through [`executed`].
    Execute(usize),
    /// The turn is over.
    Finish,
}

/// The pacing of an agent: the throttle's period, at least one.
pub open spec fn period(every: Option<PlanEvery>) -> u32 {
    match every {
        Some(p) => if p.0 <= 1 {
            1
        } else {
            p.0
        },
        None => 1,
    }
}

fn period_of(every: Option<PlanEvery>) -> (n: u32)
    ensures
        n == period(every),
{
    match every {
        Some(p) => if p.0 <= 1 {
            1
        } else {
            p.0
        },
        None => 1,
    }
}

/// What the plan's next step asks for: a check where it names a primitive of the
/// domain, and nothing otherwise.
pub open spec fn step_action<M: PlanModel>(d: HtnDomain<M>, agent: HtnAgent) -> TurnAction {
    match agent.plan {
        Some(plan) => if agent.cursor < plan.steps@.len() && plan.steps@[agent.cursor as int]
            < d.tasks@.len() && d.tasks@[plan.steps@[agent.cursor as int] as int] is Primitive {
            TurnAction::Check(plan.steps@[agent.cursor as int] as usize)
        } else {
            TurnAction::Finish
        },
        None => TurnAction::Finish,
    }
}

fn next_step<M: PlanModel>(domain: &HtnDomain<M>, agent: &HtnAgent) -> (action: TurnAction)
    ensures
        action == step_action(*domain, *agent),
{
    match &agent.plan {
        Some(plan) => match plan.step_task(agent.cursor) {
            Some(step) => {
                if step < domain.tasks.len() {
                    match &domain.tasks[step] {
                        Task::Primitive(_) => TurnAction::Check(step),
                        _ => TurnAction::Finish,
                    }
                } else {
                    TurnAction::Finish
                }
            },
            None => TurnAction::Finish,
        },
        None => TurnAction::Finish,
    }
}

/// Whether the throttle holds an agent back in this run.
pub open spec fn deferred(agent: HtnAgent, every: Option<PlanEvery>) -> bool {
    agent.plan is None && period(every) > 1 && agent.plan_deferral > 0
}

/// Starts a turn: an agent with a plan takes its next step; one without plans,
/// unless the throttle defers that to a later run, which counts this one off.
pub fn begin_turn<M: PlanModel>(
    domain: &HtnDomain<M>,
    agent: &mut HtnAgent,
    every: Option<PlanEvery>,
) -> (action: TurnAction)
    ensures
        *final(agent) == turn_start(*domain, *old(agent), every).agent,
        action == turn_start(*domain, *old(agent), every).action,
{
    if agent.plan.is_some() {
        return next_step(domain, agent);
    }
    if period_of(every) > 1 && agent.plan_deferral > 0 {
        agent.plan_deferral = agent.plan_deferral - 1;
        return TurnAction::Finish;
    }
    TurnAction::Plan
}

/// The plan that an agent keeps of a planning attempt: none where planning
/// failed or there is nothing to do.
pub open spec fn kept_plan(result: HtnResult<Plan>) -> Option<Plan> {
    match result {
        Ok(plan) => if plan.steps@.len() == 0 {
            None
        } else {
            Some(plan)
        },
        Err(_) => None,
    }
}

/// Takes the result of a planning attempt: the agent keeps the plan, if there is
/// anything to do in it, and starts at its first step. The attempt, successful or
/// not, resets the throttle.
pub fn planned<M: PlanModel>(
    domain: &HtnDomain<M>,
    agent: &mut HtnAgent,
    every: Option<PlanEvery>,
    result: HtnResult<Plan>,
) -> (action: TurnAction)
    ensures
        ({
            let at = TurnView { agent: *old(agent), action: TurnAction::Plan, first: true };
            let next = turn_next(*domain, every, at, Answer::Planned(result));
            *final(agent) == next.agent && action == next.action
        }),
{
    let plan = match result {
        Ok(plan) => if plan.is_empty() {
            None
        } else {
            Some(plan)
        },
        Err(_) => None,
    };
    *agent = HtnAgent { plan, cursor: 0, plan_deferral: period_of(every) - 1 };
    next_step(domain, agent)
}

/// Takes the result of checking the step `step` against the real world. Where
/// its preconditions hold it is executed. Otherwise the plan is dropped; the
/// agent plans again at once if it has not done so in this turn (`first`), past
/// the throttle, and stays planless until its next turn otherwise.
pub fn checked(agent: &mut HtnAgent, step: usize, holds: bool, first: bool) -> (action: TurnAction)
    ensures
        *final(agent) == after_check(*old(agent), step, holds, first).agent,
        action == after_check(*old(agent), step, holds, first).action,
{
    if holds {
        return TurnAction::Execute(step);
    }
    agent.plan = None;
    agent.cursor = 0;
    if first {
        TurnAction::Plan
    } else {
        TurnAction::Finish
    }
}

/// Takes that the step at the cursor was executed: the cursor moves on, and a
/// finished plan is dropped. The turn is over: one step per turn.
pub fn executed(agent: &mut HtnAgent) -> (action: TurnAction)
    requires
        old(agent).cursor < usize::MAX,
    ensures
        *final(agent) == after_step(*old(agent)),
        action is Finish,
{
    agent.cursor = agent.cursor + 1;
    let done: bool = match &agent.plan {
        Some(plan) => agent.cursor >= plan.len(),
        None => false,
    };
    if done {
        agent.plan = None;
        agent.cursor = 0;
    }
    TurnAction::Finish
}

impl<'b, M: PlanModel, S: Searcher<M>> Searcher<M> for &'b S {
    open spec fn may_return(
        &self,
        domain: HtnDomain<M>,
        state: ModelState<M>,
        found: Option<Plan>,
    ) -> bool {
        (**self).may_return(domain, state, found)
    }

    fn search(
        &self,
        domain: &HtnDomain<M>,
        state: &PlanState<M::Component>,
    ) -> (found: Option<Plan>) {
        (**self).search(domain, state)
    }
}

/// The strategy that an agent searches with: its override's, where it has one.
pub open spec fn strategy_for<S>(
    strategy: HtnSearchStrategy<S>,
    over: Option<SearchOverride<S>>,
) -> HtnSearchStrategy<S> {
    match over {
        Some(o) => match o.strategy {
            Some(s) => s,
            None => strategy,
        },
        None => strategy,
    }
}

/// The step budget that an agent searches with: its override's, where it has one.
pub open spec fn limit_for<S>(limit: usize, over: Option<SearchOverride<S>>) -> usize {
    match over {
        Some(o) => match o.sanity_limit {
            Some(n) => n,
            None => limit,
        },
        None => limit,
    }
}

/// Whether a planner searches as a configuration and an agent's override say.
pub open spec fn configured<'a, M: PlanModel, S: Searcher<M>>(
    planner: HtnPlanner<'a, M, &'a S>,
    config: HtnConfig<M, S>,
    over: Option<SearchOverride<S>>,
) -> bool {
    &&& planner.network() == config.domain
    &&& planner.mode() == config.lookahead
    &&& planner.limit() == limit_for(config.sanity_limit, over)
    &&& match strategy_for(config.strategy, over) {
        HtnSearchStrategy::DepthFirst => planner.search_strategy() is DepthFirst,
        HtnSearchStrategy::DepthFirstFailFast => planner.search_strategy() is DepthFirstFailFast,
        HtnSearchStrategy::CostBounded => planner.search_strategy() is CostBounded,
        HtnSearchStrategy::Custom(s) => planner.search_strategy() == HtnSearchStrategy::Custom(&s),
    }
}

/// Whether `result` is what an agent's planning attempt from state `s` gives, and
/// `after` the decisions traced with it.
pub open spec fn attempt<'a, M: PlanModel, S: Searcher<M>>(
    config: HtnConfig<M, S>,
    over: Option<SearchOverride<S>>,
    s: ModelState<M>,
    result: HtnResult<Plan>,
    before: Seq<DecompositionTrace>,
    after: Seq<DecompositionTrace>,
) -> bool {
    exists|planner: HtnPlanner<'a, M, &'a S>| #[trigger]
        configured(planner, config, over) && {
            let work = seq![ResumeStep::Task(config.domain.root as u32)];
            let r = searched(
                config.domain,
                planner.config(config.debug_trace),
                planner.limit() as nat,
                work,
                Seq::empty(),
                s,
                if config.debug_trace {
                    before
                } else {
                    Seq::empty()
                },
            );
            if planner.search_strategy() is Custom {
                planner.plans(work, Seq::empty(), s, result) && after == before
            } else {
                answers(config.domain, result, r) && after == (if config.debug_trace {
                    r.1.trace
                } else {
                    before
                })
            }
        }
}

/// One planning attempt of an agent: forward from the domain's root, with the
/// agent's own strategy and budget where it has them. Decisions are appended to
/// `trace` where the configuration says so.
pub fn plan_for<M: PlanModel, S: Searcher<M>>(
    config: &HtnConfig<M, S>,
    over: &Option<SearchOverride<S>>,
    state: &PlanState<M::Component>,
    trace: &mut Vec<DecompositionTrace>,
) -> (result: HtnResult<Plan>)
    requires
        config.domain.wf(),
        config.domain.baked(),
        state@.len() == config.domain.slots(),
    ensures
        attempt(*config, *over, state@, result, old(trace)@, final(trace)@),
{
    let strategy: &HtnSearchStrategy<S> = match over {
        Some(o) => match &o.strategy {
            Some(s) => s,
            None => &config.strategy,
        },
        None => &config.strategy,
    };
    let limit: usize = match over {
        Some(o) => match o.sanity_limit {
            Some(n) => n,
            None => config.sanity_limit,
        },
        None => config.sanity_limit,
    };
    let chosen: HtnSearchStrategy<&S> = match strategy {
        HtnSearchStrategy::DepthFirst => HtnSearchStrategy::DepthFirst,
        HtnSearchStrategy::DepthFirstFailFast => HtnSearchStrategy::DepthFirstFailFast,
        HtnSearchStrategy::CostBounded => HtnSearchStrategy::CostBounded,
        HtnSearchStrategy::Custom(s) => HtnSearchStrategy::Custom(s),
    };
    let mut planner: HtnPlanner<'_, M, &S> = HtnPlanner::new(&config.domain);
    planner.set_lookahead_mode(config.lookahead).set_sanity_limit(limit).set_strategy(chosen);
    let root = PlanRoot::Index(config.domain.root);
    assert(configured(planner, *config, *over));
    if config.debug_trace {
        planner.plan_traced(root, state, trace)
    } else {
        planner.plan(root, state)
    }
}

/// Commits an executed step to the scratchpad that was refreshed after its
/// action: its effects are applied, and the slots to write back to the real
/// entity are returned. Expected effects are only hoped for, and are not
/// committed; parameters that an effect only reads are not written back.
pub fn commit_step<M: PlanModel>(
    domain: &HtnDomain<M>,
    step: usize,
    state: &mut PlanState<M::Component>,
) -> (slots: Vec<usize>)
    requires
        domain.wf(),
        old(state)@.len() == domain.slots(),
        step < domain.tasks@.len(),
        domain.tasks@[step as int] is Primitive,
    ensures
        ({
            let p = domain.tasks@[step as int]->Primitive_0;
            &&& slots@ == writes_of(p.effects@)
            &&& final(state)@ == p.committed(old(state)@)
            &&& final(state)@.len() == old(state)@.len()
            &&& forall|i: int|
                0 <= i < old(state)@.len() && !some_writes(p.effects@, i) ==> (
                #[trigger] final(state)@[i]) == old(state)@[i]
        }),
{
    assert(domain.tasks@[step as int].wf(domain.tasks@.len(), domain.slots()));
    match &domain.tasks[step] {
        Task::Primitive(p) => {
            let ghost before = state@;
            p.commit_effects(state);
            proof {
                assert forall|i: int| 0 <= i < before.len() && !some_writes(p.effects@, i) implies (
                #[trigger] state@[i]) == before[i] by {
                    lemma_apply_all_frame(p.effects@, before, i);
                }
            }
            copy_indices(p.guaranteed_slots())
        },
        _ => Vec::new(),
    }
}

/// Whether a domain that was rebuilt is due: the patch counter has moved since
/// the last run. The first run only takes note of it.
pub fn patch_landed(seen: &mut Option<u32>, current: u32) -> (rebuild: bool)
    ensures
        *final(seen) == Some(current),
        rebuild == (*old(seen) matches Some(s) && s != current),
{
    let moved: bool = match *seen {
        Some(s) => s != current,
        None => false,
    };
    *seen = Some(current);
    moved
}

/// Drops an agent's plan, for a domain that was rebuilt.
pub fn drop_plan(agent: &mut HtnAgent)
    ensures
        *final(agent) == (HtnAgent { plan: None, cursor: 0, ..*old(agent) }),
{
    agent.plan = None;
    agent.cursor = 0;
}

/// Where a turn stands: the agent, what is asked for, and whether the agent may
/// still plan again after a failed check.
pub struct TurnView {
    /// The agent.
    pub agent: HtnAgent,
    /// What is asked for.
    pub action: TurnAction,
    /// Whether a failed check leads to planning again.
    pub first: bool,
}

/// What comes of an action.
pub enum Answer {
    /// The result of a planning attempt.
    Planned(HtnResult<Plan>),
    /// Whether the step's preconditions hold.
    Checked(bool),
    /// The step was executed.
    Executed,
}

/// Where a turn starts.
pub open spec fn turn_start<M: PlanModel>(
    d: HtnDomain<M>,
    agent: HtnAgent,
    every: Option<PlanEvery>,
) -> TurnView {
    if deferred(agent, every) {
        TurnView {
            agent: HtnAgent { plan_deferral: (agent.plan_deferral - 1) as u32, ..agent },
            action: TurnAction::Finish,
            first: true,
        }
    } else if agent.plan is None {
        TurnView { agent, action: TurnAction::Plan, first: true }
    } else {
        TurnView { agent, action: step_action(d, agent), first: true }
    }
}

/// Where a turn goes after the step `step` was checked.
pub open spec fn after_check(agent: HtnAgent, step: usize, holds: bool, first: bool) -> TurnView {
    if holds {
        TurnView { agent, action: TurnAction::Execute(step), first }
    } else {
        TurnView {
            agent: HtnAgent { plan: None, cursor: 0, ..agent },
            action: if first {
                TurnAction::Plan
            } else {
                TurnAction::Finish
            },
            first: false,
        }
    }
}

/// The agent after the step at its cursor was executed.
pub open spec fn after_step(agent: HtnAgent) -> HtnAgent {
    if agent.plan matches Some(p) && agent.cursor + 1 >= p.steps@.len() {
        HtnAgent { plan: None, cursor: 0, ..agent }
    } else {
        HtnAgent { cursor: (agent.cursor + 1) as usize, ..agent }
    }
}

/// Where a turn goes on what comes of an action; an answer to another question
/// ends it.
pub open spec fn turn_next<M: PlanModel>(
    d: HtnDomain<M>,
    every: Option<PlanEvery>,
    at: TurnView,
    answer: Answer,
) -> TurnView {
    match (at.action, answer) {
        (TurnAction::Plan, Answer::Planned(result)) => {
            let agent = HtnAgent {
                plan: kept_plan(result),
                cursor: 0,
                plan_deferral: (period(every) - 1) as u32,
            };
            TurnView { agent, action: step_action(d, agent), ..at }
        },
        (TurnAction::Check(step), Answer::Checked(holds)) => after_check(
            at.agent,
            step,
            holds,
            at.first,
        ),
        (TurnAction::Execute(_), Answer::Executed) => TurnView {
            agent: after_step(at.agent),
            action: TurnAction::Finish,
            ..at
        },
        _ => TurnView { action: TurnAction::Finish, ..at },
    }
}

/// Where a turn stands after the first `k` answers.
pub open spec fn turn_after<M: PlanModel>(
    d: HtnDomain<M>,
    every: Option<PlanEvery>,
    start: TurnView,
    answers: Seq<Answer>,
    k: nat,
) -> TurnView
    decreases k,
{
    if k == 0 {
        start
    } else {
        turn_next(
            d,
            every,
            turn_after(d, every, start, answers, (k - 1) as nat),
            answers[k - 1],
        )
    }
}

/// A turn is over after at most five actions, whatever comes of them.
pub proof fn turns_end<M: PlanModel>(
    d: HtnDomain<M>,
    agent: HtnAgent,
    every: Option<PlanEvery>,
    answers: Seq<Answer>,
)
    requires
        answers.len() >= 5,
    ensures
        turn_after(d, every, turn_start(d, agent, every), answers, 5).action is Finish,
{
    reveal_with_fuel(turn_after, 6);
}

/// A turn executes one step at most: once a step was asked to be executed,
/// nothing but the end of the turn follows.
pub proof fn one_step_per_turn<M: PlanModel>(
    d: HtnDomain<M>,
    agent: HtnAgent,
    every: Option<PlanEvery>,
    answers: Seq<Answer>,
    j: nat,
    k: nat,
)
    requires
        j < k <= answers.len(),
        turn_after(d, every, turn_start(d, agent, every), answers, j).action is Execute,
    ensures
        turn_after(d, every, turn_start(d, agent, every), answers, k).action is Finish,
    decreases k,
{
    if k > j + 1 {
        one_step_per_turn(d, agent, every, answers, j, (k - 1) as nat);
    }
}

/// A plan whose next step fails its check is replaced in the same turn: the turn
/// asks for a new plan, whatever the throttle.
pub proof fn drift_replans_at_once<M: PlanModel>(
    d: HtnDomain<M>,
    agent: HtnAgent,
    every: Option<PlanEvery>,
)
    requires
        step_action(d, agent) is Check,
    ensures
        turn_start(d, agent, every).action == step_action(d, agent),
        turn_next(d, every, turn_start(d, agent, every), Answer::Checked(false)).action is Plan,
        turn_next(
            d,
            every,
            turn_start(d, agent, every),
            Answer::Checked(false),
        ).agent.plan is None,
{
}

/// A throttled agent that sits planless plans in one run out of its period: an
/// attempt defers it for as many runs as the period leaves.
pub proof fn throttle_paces_planning<M: PlanModel>(
    d: HtnDomain<M>,
    agent: HtnAgent,
    every: Option<PlanEvery>,
)
    requires
        agent.plan is None,
        period(every) > 1,
    ensures
        turn_start(d, agent, every).action is Plan <==> agent.plan_deferral == 0,
        agent.plan_deferral > 0 ==> turn_start(d, agent, every).agent.plan_deferral
            == agent.plan_deferral - 1,
        forall|result: HtnResult<Plan>|
            agent.plan_deferral == 0 ==> (#[trigger] turn_next(
                d,
                every,
                turn_start(d, agent, every),
                Answer::Planned(result),
            )).agent.plan_deferral == period(every) - 1,
{
}

/// Whether the steps of a plan are primitives of a domain.
pub open spec fn names_primitives<M: PlanModel>(d: HtnDomain<M>, plan: Plan) -> bool {
    forall|i: int|
        0 <= i < plan.steps@.len() ==> (#[trigger] plan.steps@[i]) < d.tasks@.len()
            && d.tasks@[plan.steps@[i] as int] is Primitive
}

/// A step whose check holds is executed, and the plan goes on behind it: the
/// agent keeps the same plan, and its next turn asks for the step that follows.
/// Behind the last step the plan is done, and the agent has none.
pub proof fn a_step_moves_the_plan_on<M: PlanModel>(
    d: HtnDomain<M>,
    agent: HtnAgent,
    every: Option<PlanEvery>,
    plan: Plan,
)
    requires
        agent.plan == Some(plan),
        agent.cursor < plan.steps@.len(),
        names_primitives(d, plan),
    ensures
        ({
            let c = agent.cursor as int;
            let start = turn_start(d, agent, every);
            let held = turn_next(d, every, start, Answer::Checked(true));
            let done = turn_next(d, every, held, Answer::Executed);
            &&& start.action == TurnAction::Check(plan.steps@[c] as usize)
            &&& start.agent == agent
            &&& held.action == TurnAction::Execute(plan.steps@[c] as usize)
            &&& held.agent == agent
            &&& done.action is Finish
            &&& done.agent == after_step(agent)
            &&& done.agent.plan_deferral == agent.plan_deferral
            &&& c + 1 < plan.steps@.len() ==> {
                &&& done.agent.plan == Some(plan)
                &&& done.agent.cursor == c + 1
                &&& turn_start(d, done.agent, every).action == TurnAction::Check(
                    plan.steps@[c + 1] as usize,
                )
            }
            &&& c + 1 == plan.steps@.len() ==> done.agent.plan is None && done.agent.cursor == 0
        }),
{
    assert(plan.steps@[agent.cursor as int] < d.tasks@.len());
    assert(plan.steps.len() <= usize::MAX);
    if agent.cursor + 1 < plan.steps@.len() {
        assert(plan.steps@[agent.cursor + 1] < d.tasks@.len());
    }
}

/// The agent after a turn in which its check holds and its step is executed.
pub open spec fn agent_after<M: PlanModel>(
    d: HtnDomain<M>,
    agent: HtnAgent,
    every: Option<PlanEvery>,
    turns: nat,
) -> HtnAgent
    decreases turns,
{
    if turns == 0 {
        agent
    } else {
        let start = turn_start(d, agent_after(d, agent, every, (turns - 1) as nat), every);
        turn_after(d, every, start, seq![Answer::Checked(true), Answer::Executed], 2).agent
    }
}

/// Over turns in which every check holds, an agent executes the steps of its plan
/// in order, each once: the turn `turns` from now executes the step that many
/// behind the cursor, and behind the last one the agent is planless.
pub proof fn plans_run_step_by_step<M: PlanModel>(
    d: HtnDomain<M>,
    agent: HtnAgent,
    every: Option<PlanEvery>,
    plan: Plan,
    turns: nat,
)
    requires
        agent.plan == Some(plan),
        agent.cursor < plan.steps@.len(),
        names_primitives(d, plan),
        agent.cursor + turns <= plan.steps@.len(),
    ensures
        agent.cursor + turns < plan.steps@.len() ==> {
            let now = agent_after(d, agent, every, turns);
            let step = plan.steps@[agent.cursor + turns] as usize;
            &&& now.plan == Some(plan)
            &&& now.cursor == agent.cursor + turns
            &&& turn_start(d, now, every).action == TurnAction::Check(step)
            &&& turn_next(d, every, turn_start(d, now, every), Answer::Checked(true)).action
                == TurnAction::Execute(step)
        },
        agent.cursor + turns == plan.steps@.len() ==> agent_after(
            d,
            agent,
            every,
            turns,
        ).plan is None,
    decreases turns,
{
    if turns > 0 {
        plans_run_step_by_step(d, agent, every, plan, (turns - 1) as nat);
        let before = agent_after(d, agent, every, (turns - 1) as nat);
        a_step_moves_the_plan_on(d, before, every, plan);
        let answers = seq![Answer::Checked(true), Answer::Executed];
        reveal_with_fuel(turn_after, 3);
        assert(answers[0] == Answer::Checked(true) && answers[1] == Answer::Executed);
    }
    if agent.cursor + turns < plan.steps@.len() {
        a_step_moves_the_plan_on(d, agent_after(d, agent, every, turns), every, plan);
    }
}

/// A new plan is kept and starts at its first step, in the turn that made it; an
/// attempt that fails, or finds that there is nothing to do, leaves the agent
/// planless and ends the turn. A new plan whose first step fails its check is
/// dropped, and the turn ends where it has planned twice.
pub proof fn a_new_plan_starts_at_once<M: PlanModel>(
    d: HtnDomain<M>,
    every: Option<PlanEvery>,
    at: TurnView,
    result: HtnResult<Plan>,
)
    requires
        at.action is Plan,
        result matches Ok(plan) ==> names_primitives(d, plan),
    ensures
        ({
            let next = turn_next(d, every, at, Answer::Planned(result));
            &&& next.first == at.first
            &&& match result {
                Ok(plan) => if plan.steps@.len() > 0 {
                    &&& next.agent.plan == Some(plan)
                    &&& next.agent.cursor == 0
                    &&& next.action == TurnAction::Check(plan.steps@[0] as usize)
                    &&& !at.first ==> turn_next(
                        d,
                        every,
                        next,
                        Answer::Checked(false),
                    ).action is Finish
                    &&& turn_next(d, every, next, Answer::Checked(false)).agent.plan is None
                } else {
                    next.agent.plan is None && next.action is Finish
                },
                Err(_) => next.agent.plan is None && next.action is Finish,
            }
        }),
{
    if let Ok(plan) = result {
        if plan.steps@.len() > 0 {
            assert(plan.steps@[0] < d.tasks@.len());
        }
    }
}

/// An agent after as many runs in which it only starts its turn.
pub open spec fn waited<M: PlanModel>(
    d: HtnDomain<M>,
    agent: HtnAgent,
    every: Option<PlanEvery>,
    runs: nat,
) -> HtnAgent
    decreases runs,
{
    if runs == 0 {
        agent
    } else {
        turn_start(d, waited(d, agent, every, (runs - 1) as nat), every).agent
    }
}

/// An agent throttled to one attempt in `n` runs that comes away planless from
/// an attempt sits out `n - 1` runs, and plans in the run after those; without a
/// throttle, or with `n <= 1`, it plans in the next run.
pub proof fn planless_agents_wait_their_period<M: PlanModel>(
    d: HtnDomain<M>,
    at: TurnView,
    every: Option<PlanEvery>,
    result: HtnResult<Plan>,
    runs: nat,
)
    requires
        at.action is Plan,
        result matches Ok(plan) ==> plan.steps@.len() == 0,
        runs < (match every {
            Some(n) => if n.0 > 1 {
                n.0 as int
            } else {
                1
            },
            None => 1,
        }),
    ensures
        ({
            let agent = turn_next(d, every, at, Answer::Planned(result)).agent;
            let n = match every {
                Some(n) => if n.0 > 1 {
                    n.0 as int
                } else {
                    1
                },
                None => 1,
            };
            let now = waited(d, agent, every, runs);
            &&& runs + 1 < n ==> turn_start(d, now, every).action is Finish
            &&& runs + 1 == n ==> turn_start(d, now, every).action is Plan
            &&& now.plan is None
            &&& now.plan_deferral == n - 1 - runs
        }),
    decreases runs,
{
    if runs > 0 {
        planless_agents_wait_their_period(d, at, every, result, (runs - 1) as nat);
    }
}

/// An agent's own strategy and budget win over the configuration's, each where the
/// agent has one.
pub proof fn overrides_win<S>(
    strategy: HtnSearchStrategy<S>,
    limit: usize,
    over: Option<SearchOverride<S>>,
)
    ensures
        over is None ==> strategy_for(strategy, over) == strategy && limit_for(limit, over) == limit,
        over matches Some(o) ==> {
            &&& o.strategy matches Some(own) ==> strategy_for(strategy, over) == own
            &&& o.strategy is None ==> strategy_for(strategy, over) == strategy
            &&& o.sanity_limit matches Some(own) ==> limit_for(limit, over) == own
            &&& o.sanity_limit is None ==> limit_for(limit, over) == limit
        },
{
}

} // verus!
