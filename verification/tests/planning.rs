use bevy_bhtn::ahtn::Ahtn;
use bevy_bhtn::back_planner::BackPlanner;
use bevy_bhtn::conditions::HtnCondition;
use bevy_bhtn::domain::{HtnDomain, SelectionPolicy, Task};
use bevy_bhtn::ecs::{
    begin_turn, checked, commit_step, drop_plan, executed, patch_landed, plan_for, planned,
    HtnAgent, HtnConfig, PlanEvery, TurnAction,
};
use bevy_bhtn::effects::Effect;
use bevy_bhtn::error::HtnError;
use bevy_bhtn::field_model::{FieldEffect, FieldModel, FieldScore};
use bevy_bhtn::mcts::{MctsSearcher, NodeStats, TreePolicy};
use bevy_bhtn::names::name;
use bevy_bhtn::planner::{HtnPlanner, Plan, PlanRoot, PlanStatus, ResumeStep};
use bevy_bhtn::recording::TaskSource;
use bevy_bhtn::selection::{
    DecompositionTrace, HtnSearchStrategy, LookaheadMode, SearchOverride, TraceOutcome,
};
use bevy_bhtn::state::{PlanState, SlotKey};
use bevy_bhtn::tasks::{CheckDecl, EffectDecl, GoalBuilder, Param, TaskBuilder};
use bevy_bhtn::values::Value;

type Builder = TaskBuilder<FieldModel>;
type Domain = HtnDomain<FieldModel>;
type Declare = fn(u64, &mut Builder);

/// Task functions: one function that declares each task by its identity.
struct Source(Declare);

impl TaskSource<FieldModel> for Source {
    fn may_declare(&self, _task: u64, _draft: Builder) -> bool {
        unreachable!("not called: it only stands in contracts")
    }

    fn record(&self, task: u64, builder: &mut Builder) {
        (self.0)(task, builder)
    }
}

/// Visits are rewards enough: the least visited child first.
struct LeastVisited;

impl TreePolicy for LeastVisited {
    type Reward = u64;

    fn start(&self) -> u64 {
        0
    }

    fn credit(&self, sum: &u64, found: Option<u64>) -> u64 {
        sum + if found.is_some() { 1 } else { 0 }
    }

    fn pick(&self, stats: &Vec<NodeStats<u64>>, _parent: usize, live: &Vec<usize>) -> usize {
        let mut best = 0;
        for k in 1..live.len() {
            if stats[live[k]].visits < stats[live[best]].visits {
                best = k;
            }
        }
        best
    }
}

type Mcts = MctsSearcher<LeastVisited>;
type Planner<'a> = HtnPlanner<'a, FieldModel, Mcts>;

const AMMO: u64 = 1;
const KEY: u64 = 2;
const GOLD: u64 = 3;

fn param(field: u64) -> Param {
    let text = match field {
        AMMO => "game::Ammo",
        KEY => "game::Key",
        _ => "game::Gold",
    };
    Param { key: field, name: name(text) }
}

fn check(condition: HtnCondition, field: u64) -> CheckDecl<FieldModel> {
    CheckDecl { check: condition, params: vec![param(field)] }
}

/// `field == n`.
fn is(field: u64, n: i32) -> CheckDecl<FieldModel> {
    check(
        HtnCondition::EqualsInt { field: param(field).name, value: n, notted: false },
        field,
    )
}

/// `field > n`.
fn above(field: u64, n: i32) -> CheckDecl<FieldModel> {
    check(
        HtnCondition::GreaterThanInt { field: param(field).name, threshold: n, orequals: false },
        field,
    )
}

fn effect(e: Effect, field: u64) -> EffectDecl<FieldModel> {
    EffectDecl {
        mutator: FieldEffect::new(e).expect("not a float increment"),
        params: vec![param(field)],
        writes: vec![true],
    }
}

/// `field = n`.
fn set(field: u64, n: i32) -> EffectDecl<FieldModel> {
    effect(Effect::SetInt { field: param(field).name, value: n }, field)
}

/// `field += n`.
fn bump(field: u64, n: i32) -> EffectDecl<FieldModel> {
    effect(Effect::IncrementInt { field: param(field).name, by: n }, field)
}

fn build(declare: Declare) -> Domain {
    HtnDomain::from_root(&Source(declare), 0, name("game::root"))
        .build()
        .expect("the domain builds")
}

fn state_of(domain: &Domain, values: &[(u64, i32)]) -> PlanState<Value> {
    let mut b = PlanState::build(&domain.components);
    for &(key, n) in values {
        b = b.set(key, Value::Int(n));
    }
    b.finish()
}

fn int_at(domain: &Domain, state: &PlanState<Value>, field: u64) -> i32 {
    match state.get(domain.components.get(field).expect("registered")) {
        Some(Value::Int(n)) => *n,
        _ => panic!("not an integer"),
    }
}

fn names_of(plan: &Plan) -> Vec<String> {
    plan.task_names().iter().map(|n| n.as_str().to_string()).collect()
}

fn plan_with(domain: &Domain, values: &[(u64, i32)]) -> Plan {
    let planner: Planner = HtnPlanner::new(domain);
    planner.plan(PlanRoot::Index(0), &state_of(domain, values)).expect("a plan")
}

// ---- forward planning ---------------------------------------------------

/// Done where there is ammo; otherwise reload and try again.
fn engage(task: u64, b: &mut Builder) {
    match task {
        0 => {
            b.branch().precondition(above(AMMO, 0));
            b.branch()
                .precondition(is(AMMO, 0))
                .then_task(1, name("game::reload"))
                .then_task(0, name("game::root"));
        }
        _ => {
            b.effect(set(AMMO, 30));
        }
    }
}

#[test]
fn recursion_reloads_once() {
    let domain = build(engage);
    let plan = plan_with(&domain, &[(AMMO, 0)]);
    assert_eq!(names_of(&plan), ["game::reload"]);
    assert_eq!(plan.mtr(), &vec![1, 0]);
    assert!(plan.is_complete());
    assert!(!plan.is_partial());
    assert!(!plan.is_paused());
    assert_eq!(plan.step_task(0), Some(1));
    assert_eq!(plan.step_task(1), None);
    let nothing = plan_with(&domain, &[(AMMO, 3)]);
    assert!(nothing.is_empty());
    assert_eq!(nothing.len(), 0);
    assert!(nothing.is_preferred_over(&plan));
    assert!(!plan.is_preferred_over(&nothing));
}

#[test]
fn planning_leaves_the_state_alone() {
    let domain = build(engage);
    let state = state_of(&domain, &[(AMMO, 0)]);
    let planner: Planner = HtnPlanner::new(&domain);
    planner.plan(PlanRoot::Index(0), &state).expect("a plan");
    assert_eq!(int_at(&domain, &state, AMMO), 0);
}

#[test]
fn unregistered_roots_are_errors() {
    let domain = build(engage);
    let state = state_of(&domain, &[]);
    let planner: Planner = HtnPlanner::new(&domain);
    match planner.plan(PlanRoot::Fn(77, name("game::nowhere")), &state) {
        Err(HtnError::UnregisteredTask { name }) => assert_eq!(name, "game::nowhere"),
        other => panic!("{other:?}"),
    }
    match planner.plan(PlanRoot::from(9), &state) {
        Err(HtnError::UnregisteredTask { name }) => assert_eq!(name, "<task index 9>"),
        other => panic!("{other:?}"),
    }
}

/// The first branch fails only once its second member is reached.
fn backtracking(task: u64, b: &mut Builder) {
    match task {
        0 => {
            b.branch().named(name("short")).then_task(1, name("grab")).then_task(2, name("open"));
            b.branch()
                .named(name("long"))
                .then_task(3, name("forge"))
                .then_task(2, name("open"));
        }
        1 => {
            b.effect(bump(GOLD, 1));
        }
        2 => {
            b.precondition(is(KEY, 1)).effect(set(AMMO, 9));
        }
        _ => {
            b.effect(set(KEY, 1)).cost(5);
        }
    }
}

#[test]
fn backtracking_restores_the_state_and_tries_the_next_branch() {
    let domain = build(backtracking);
    let plan = plan_with(&domain, &[]);
    assert_eq!(names_of(&plan), ["forge", "open"]);
    assert_eq!(plan.mtr(), &vec![1]);
    // Without backtracking the search ends with the prefix it has.
    let mut planner: Planner = HtnPlanner::new(&domain);
    planner
        .set_lookahead(false)
        .set_strategy(HtnSearchStrategy::DepthFirstFailFast);
    let partial = planner.plan(PlanRoot::Index(0), &state_of(&domain, &[])).expect("a prefix");
    assert_eq!(partial.status, PlanStatus::Partial);
    assert_eq!(names_of(&partial), ["grab"]);
}

#[test]
fn traces_report_the_decisions() {
    let domain = build(backtracking);
    let mut planner: Planner = HtnPlanner::new(&domain);
    planner.set_lookahead_mode(LookaheadMode::Off);
    let mut trace: Vec<DecompositionTrace> = Vec::new();
    planner
        .plan_traced(PlanRoot::Index(0), &state_of(&domain, &[]), &mut trace)
        .expect("a plan");
    let seen: Vec<(u32, TraceOutcome)> = trace.iter().map(|t| (t.branch, t.outcome)).collect();
    assert!(seen.contains(&(0, TraceOutcome::Selected)));
    assert!(seen.contains(&(0, TraceOutcome::Backtracked)));
    assert!(seen.contains(&(1, TraceOutcome::Selected)));
}

#[test]
fn the_budget_cuts_the_plan_short() {
    let domain = build(backtracking);
    let mut planner: Planner = HtnPlanner::new(&domain);
    planner.set_lookahead(false).set_sanity_limit(1);
    let plan = planner.plan(PlanRoot::Index(0), &state_of(&domain, &[])).expect("a prefix");
    assert_eq!(plan.status, PlanStatus::Partial);
    assert!(plan.is_empty());
    // The look-ahead sees that no branch fits what is left of the budget.
    planner.set_lookahead(true);
    let plan = planner.plan(PlanRoot::Index(0), &state_of(&domain, &[])).expect("a prefix");
    assert_eq!(plan.status, PlanStatus::Partial);
    assert!(plan.is_empty());
}

fn three_steps(task: u64, b: &mut Builder) {
    match task {
        0 => {
            b.branch()
                .then_task(1, name("one"))
                .then_task(2, name("two"))
                .then_task(3, name("three"));
        }
        _ => {
            b.effect(bump(GOLD, 1));
        }
    }
}

#[test]
fn a_branch_that_outruns_the_budget_leaves_a_partial_plan() {
    let domain = build(three_steps);
    let state = state_of(&domain, &[]);
    let mut planner: Planner = HtnPlanner::new(&domain);
    planner.set_sanity_limit(2);
    let plan = planner.plan(PlanRoot::Index(0), &state).expect("a prefix");
    assert_eq!(plan.status, PlanStatus::Partial);
    planner.set_strategy(HtnSearchStrategy::CostBounded);
    let plan = planner.plan(PlanRoot::Index(0), &state).expect("a prefix");
    assert_eq!(plan.status, PlanStatus::Partial);
    planner.set_sanity_limit(4).set_strategy(HtnSearchStrategy::DepthFirst);
    let plan = planner.plan(PlanRoot::Index(0), &state).expect("a plan");
    assert_eq!(plan.status, PlanStatus::Complete);
    assert_eq!(names_of(&plan), ["one", "two", "three"]);
}

/// A first step, and a task behind it whose only branch is long.
fn long_tail(task: u64, b: &mut Builder) {
    match task {
        0 => {
            b.branch().then_task(1, name("step")).then_task(2, name("tail"));
        }
        2 => {
            b.branch()
                .precondition(is(KEY, 0))
                .then_task(1, name("step"))
                .then_task(1, name("step"))
                .then_task(1, name("step"));
            b.branch().precondition(is(KEY, 1)).then_task(1, name("step"));
        }
        _ => {
            b.effect(bump(GOLD, 1));
        }
    }
}

#[test]
fn a_cut_search_answers_with_how_far_it_came() {
    let domain = build(long_tail);
    let mut planner: Planner = HtnPlanner::new(&domain);
    planner.set_lookahead_mode(LookaheadMode::Always).set_sanity_limit(5);
    let plan = planner.plan(PlanRoot::Index(0), &state_of(&domain, &[])).expect("a prefix");
    assert_eq!(plan.status, PlanStatus::Partial);
    assert_eq!(names_of(&plan), ["step"]);
    assert_eq!(plan.mtr(), &vec![0]);
}

/// Nothing but itself: no finite refinement.
fn endless(task: u64, b: &mut Builder) {
    match task {
        0 => {
            b.branch().then_task(1, name("loop"));
        }
        _ => {
            b.branch().then_task(1, name("loop"));
        }
    }
}

#[test]
fn a_network_without_finite_refinements_has_no_plan() {
    let domain = build(endless);
    let mut planner: Planner = HtnPlanner::new(&domain);
    for mode in [LookaheadMode::Always, LookaheadMode::Adaptive] {
        planner.set_lookahead_mode(mode);
        assert_eq!(
            planner.plan(PlanRoot::Index(0), &state_of(&domain, &[])).unwrap_err(),
            HtnError::NoPlan
        );
    }
}

#[test]
fn traces_report_branches_whose_preconditions_fail() {
    let domain = build(engage);
    let planner: Planner = HtnPlanner::new(&domain);
    let mut trace: Vec<DecompositionTrace> = Vec::new();
    planner
        .plan_traced(PlanRoot::Index(0), &state_of(&domain, &[(AMMO, 0)]), &mut trace)
        .expect("a plan");
    let seen: Vec<(u32, u32, TraceOutcome)> =
        trace.iter().map(|t| (t.compound, t.branch, t.outcome)).collect();
    assert_eq!(
        seen,
        [
            (0, 0, TraceOutcome::PrecondFailed),
            (0, 1, TraceOutcome::Selected),
            (0, 0, TraceOutcome::Selected),
        ]
    );
    // Where no branch applies, every one is reported.
    let mut trace: Vec<DecompositionTrace> = Vec::new();
    let result =
        planner.plan_traced(PlanRoot::Index(0), &state_of(&domain, &[(AMMO, -1)]), &mut trace);
    assert_eq!(result.unwrap_err(), HtnError::NoPlan);
    let seen: Vec<(u32, u32, TraceOutcome)> =
        trace.iter().map(|t| (t.compound, t.branch, t.outcome)).collect();
    assert_eq!(
        seen,
        [(0, 0, TraceOutcome::PrecondFailed), (0, 1, TraceOutcome::PrecondFailed)]
    );
}

/// The first branch fails two levels down, below a task with one choice left.
fn pinned(task: u64, b: &mut Builder) {
    match task {
        0 => {
            b.branch().then_task(1, name("outer")).then_task(4, name("wait"));
            b.branch().then_task(4, name("wait"));
        }
        1 => {
            b.branch().then_task(2, name("inner"));
            b.branch().precondition(is(KEY, 1)).then_task(4, name("wait"));
        }
        2 => {
            b.branch().then_task(3, name("open"));
        }
        3 => {
            b.precondition(is(KEY, 1)).effect(set(GOLD, 1));
        }
        _ => {
            b.effect(bump(AMMO, 1));
        }
    }
}

#[test]
fn traces_report_that_a_pinned_branch_failed() {
    let domain = build(pinned);
    let mut planner: Planner = HtnPlanner::new(&domain);
    planner.set_lookahead_mode(LookaheadMode::Always);
    let mut trace: Vec<DecompositionTrace> = Vec::new();
    let plan = planner
        .plan_traced(PlanRoot::Index(0), &state_of(&domain, &[]), &mut trace)
        .expect("a plan");
    assert_eq!(names_of(&plan), ["wait"]);
    let root = trace[0].compound;
    let outer = trace[1].compound;
    let seen: Vec<(u32, u32, TraceOutcome)> =
        trace.iter().map(|t| (t.compound, t.branch, t.outcome)).collect();
    assert_eq!(
        seen,
        [
            (root, 0, TraceOutcome::Selected),
            (outer, 0, TraceOutcome::Selected),
            (outer, 0, TraceOutcome::Backtracked),
            (root, 0, TraceOutcome::Backtracked),
            (root, 1, TraceOutcome::Selected),
        ]
    );
}

fn hopeless(task: u64, b: &mut Builder) {
    match task {
        0 => {
            b.branch().then_task(1, name("open"));
        }
        _ => {
            b.precondition(is(KEY, 1)).effect(set(AMMO, 1));
        }
    }
}

#[test]
fn an_exhausted_search_has_no_plan() {
    let domain = build(hopeless);
    let planner: Planner = HtnPlanner::new(&domain);
    assert_eq!(
        planner.plan(PlanRoot::Index(0), &state_of(&domain, &[])).unwrap_err(),
        HtnError::NoPlan
    );
    assert_eq!(names_of(&plan_with(&domain, &[(KEY, 1)])), ["open"]);
}

fn priced(task: u64, b: &mut Builder) {
    match task {
        0 => {
            b.branch().then_task(1, name("dear"));
            b.branch().then_task(2, name("cheap"));
            b.branch().then_task(3, name("middling"));
        }
        1 => {
            b.effect(set(GOLD, 1)).cost(9);
        }
        2 => {
            b.effect(set(GOLD, 1)).cost(-4);
        }
        _ => {
            b.effect(set(GOLD, 1)).cost_fn(FieldScore::Constant(5));
        }
    }
}

#[test]
fn cost_bounded_search_finds_the_cheapest_plan() {
    let domain = build(priced);
    assert_eq!(names_of(&plan_with(&domain, &[])), ["dear"]);
    let mut planner: Planner = HtnPlanner::new(&domain);
    planner.set_strategy(HtnSearchStrategy::CostBounded);
    let plan = planner.plan(PlanRoot::Index(0), &state_of(&domain, &[])).expect("a plan");
    assert_eq!(names_of(&plan), ["cheap"]);
    let summary = &domain.summaries[0];
    assert_eq!(summary.min_cost, 0);
    assert_eq!(summary.min_yield, 1);
    assert!(summary.terminating);
    assert!(!summary.recursive);
}

fn tied(task: u64, b: &mut Builder) {
    match task {
        0 => {
            b.branch().then_task(1, name("dear"));
            b.branch().then_task(2, name("first"));
            b.branch().then_task(3, name("second"));
        }
        1 => {
            b.effect(set(GOLD, 1)).cost(9);
        }
        _ => {
            b.effect(set(GOLD, 1)).cost(2);
        }
    }
}

#[test]
fn equal_costs_keep_the_first_plan() {
    let domain = build(tied);
    for mode in [LookaheadMode::Always, LookaheadMode::Adaptive, LookaheadMode::Off] {
        let mut planner: Planner = HtnPlanner::new(&domain);
        planner.set_lookahead_mode(mode).set_strategy(HtnSearchStrategy::CostBounded);
        let plan = planner.plan(PlanRoot::Index(0), &state_of(&domain, &[])).expect("a plan");
        assert_eq!(names_of(&plan), ["first"]);
        assert_eq!(plan.mtr(), &vec![1]);
    }
}

#[test]
fn the_least_record_wins() {
    let domain = build(nested);
    let plan = plan_with(&domain, &[]);
    assert_eq!(plan.mtr(), &vec![0, 0]);
    assert_eq!(names_of(&plan), ["dear"]);
    // The other complete runs choose [0, 1] and [1].
    let mut planner: Planner = HtnPlanner::new(&domain);
    planner.set_strategy(HtnSearchStrategy::CostBounded);
    let cheapest = planner.plan(PlanRoot::Index(0), &state_of(&domain, &[])).expect("a plan");
    assert_eq!(cheapest.mtr(), &vec![0, 1]);
    assert!(plan.is_preferred_over(&cheapest));
    assert!(!cheapest.is_preferred_over(&plan));
}

fn ranked(task: u64, b: &mut Builder) {
    match task {
        0 => {
            b.select(SelectionPolicy::HighestUtility);
            b.branch().utility(1).then_task(1, name("one"));
            b.branch().utility(7).then_task(2, name("seven"));
            b.branch().utility_fn(FieldScore::Slot(0), vec![param(GOLD)]).then_task(3, name("gold"));
        }
        _ => {
            b.effect(bump(GOLD, 1));
        }
    }
}

#[test]
fn the_highest_utility_comes_first() {
    let domain = build(ranked);
    assert_eq!(names_of(&plan_with(&domain, &[(GOLD, 0)])), ["seven"]);
    assert_eq!(names_of(&plan_with(&domain, &[(GOLD, 8)])), ["gold"]);
    assert_eq!(names_of(&plan_with(&domain, &[(GOLD, 7)])), ["seven"]);
}

fn custom(task: u64, b: &mut Builder) {
    match task {
        0 => {
            b.select(SelectionPolicy::Custom(vec![2, 0]));
            b.branch().then_task(1, name("first"));
            b.branch().then_task(2, name("second"));
            b.branch().precondition(is(KEY, 1)).then_task(3, name("third"));
        }
        _ => {
            b.effect(bump(GOLD, 1));
        }
    }
}

#[test]
fn a_custom_ranker_orders_the_valid_branches() {
    let domain = build(custom);
    assert_eq!(names_of(&plan_with(&domain, &[(KEY, 1)])), ["third"]);
    assert_eq!(names_of(&plan_with(&domain, &[(KEY, 0)])), ["first"]);
}

fn random(task: u64, b: &mut Builder) {
    match task {
        0 => {
            b.select(SelectionPolicy::WeightedRandom { seed: 11 });
            b.branch().then_task(1, name("first"));
            b.branch().then_task(2, name("second"));
        }
        _ => {
            b.effect(bump(GOLD, 1));
        }
    }
}

#[test]
fn weighted_sampling_is_deterministic() {
    let domain = build(random);
    let one = plan_with(&domain, &[]);
    let two = plan_with(&domain, &[]);
    assert_eq!(one, two);
    assert_eq!(one.len(), 1);
}

/// Two unordered members, the second of which needs the first.
fn unordered(task: u64, b: &mut Builder) {
    match task {
        0 => {
            let m = b.branch();
            m.any_order(&vec![(1, name("open")), (2, name("forge"))]);
        }
        1 => {
            b.precondition(is(KEY, 1)).effect(set(GOLD, 1));
        }
        _ => {
            b.effect(set(KEY, 1));
        }
    }
}

#[test]
fn unordered_members_are_scheduled() {
    let domain = build(unordered);
    assert_eq!(names_of(&plan_with(&domain, &[])), ["forge", "open"]);
    assert_eq!(names_of(&plan_with(&domain, &[(KEY, 1)])), ["open", "forge"]);
}

fn constrained(task: u64, b: &mut Builder) {
    match task {
        0 => {
            let m = b.branch();
            let x = m.subtask(1, name("x"));
            let y = m.subtask(2, name("y"));
            m.before(y, x);
        }
        _ => {
            b.effect(bump(GOLD, 1));
        }
    }
}

#[test]
fn declared_constraints_order_the_members() {
    let domain = build(constrained);
    assert_eq!(names_of(&plan_with(&domain, &[])), ["y", "x"]);
}

fn paused(task: u64, b: &mut Builder) {
    match task {
        0 => {
            b.branch()
                .then_task(1, name("prepare"))
                .pause_plan()
                .then_task(2, name("finish"));
        }
        1 => {
            b.effect(set(KEY, 1));
        }
        _ => {
            b.precondition(is(KEY, 1)).effect(set(GOLD, 1));
        }
    }
}

#[test]
fn a_paused_plan_resumes_where_it_stopped() {
    let domain = build(paused);
    let plan = plan_with(&domain, &[]);
    assert!(plan.is_paused());
    assert!(plan.is_partial());
    assert_eq!(names_of(&plan), ["prepare"]);
    let point = plan.resume.as_ref().expect("a resume point");
    assert_eq!(point.tasks, vec![ResumeStep::Task(2)]);
    let planner: Planner = HtnPlanner::new(&domain);
    let rest = planner.resume(point, &state_of(&domain, &[(KEY, 1)])).expect("a plan");
    assert_eq!(names_of(&rest), ["finish"]);
    assert!(rest.is_complete());
    assert_eq!(
        planner.resume(point, &state_of(&domain, &[(KEY, 0)])).unwrap_err(),
        HtnError::NoPlan
    );
}

fn doomed(task: u64, b: &mut Builder) {
    match task {
        0 => {
            b.branch().then_task(1, name("lock")).then_task(2, name("open"));
            b.branch().then_task(2, name("open"));
        }
        1 => {
            b.effect(set(KEY, 0));
        }
        _ => {
            b.precondition(is(KEY, 1)).effect(set(GOLD, 1));
        }
    }
}

#[test]
fn look_ahead_changes_no_plan() {
    let domain = build(doomed);
    let state = state_of(&domain, &[(KEY, 1)]);
    for mode in [LookaheadMode::Always, LookaheadMode::Adaptive, LookaheadMode::Off] {
        let mut planner: Planner = HtnPlanner::new(&domain);
        planner.set_lookahead_mode(mode);
        let plan = planner.plan(PlanRoot::Index(0), &state).expect("a plan");
        assert_eq!(names_of(&plan), ["open"]);
    }
}

#[test]
fn summaries_say_what_every_run_writes() {
    let domain = build(backtracking);
    let key = domain.components.get(KEY).unwrap();
    let ammo = domain.components.get(AMMO).unwrap();
    let gold = domain.components.get(GOLD).unwrap();
    let s = domain.task_summary(0).expect("the root is recorded");
    assert!(s.guaranteed_writes.contains(ammo));
    assert!(!s.guaranteed_writes.contains(key));
    assert!(s.possible_writes.contains(key));
    assert!(s.possible_writes.contains(gold));
    assert_eq!(s.min_yield, 2);
    assert!(domain.task_summary(99).is_none());
    let recursive = build(engage);
    let r = recursive.task_summary(0).unwrap();
    assert!(r.recursive);
    assert!(!r.self_embedding);
    assert!(!r.tail_recursive);
}

/// Itself in front, itself in the middle, itself alone.
fn nesting(task: u64, b: &mut Builder) {
    match task {
        0 => {
            b.branch().then_task(1, name("front"));
            b.branch().then_task(2, name("middle"));
            b.branch().then_task(3, name("alone"));
        }
        1 => {
            b.branch();
            b.branch().then_task(1, name("front")).then_task(4, name("step"));
        }
        2 => {
            b.branch();
            b.branch()
                .then_task(4, name("step"))
                .then_task(2, name("middle"))
                .then_task(4, name("step"));
        }
        3 => {
            b.branch();
            b.branch().then_task(3, name("alone"));
        }
        _ => {
            b.effect(bump(GOLD, 1));
        }
    }
}

#[test]
fn structure_flags_tell_where_a_task_stands_in_itself() {
    let domain = build(nesting);
    let flags = |id: u64| {
        let s = domain.task_summary(id).expect("a recorded task");
        (s.recursive, s.self_embedding, s.tail_recursive)
    };
    assert_eq!(flags(0), (false, false, false));
    assert_eq!(flags(1), (true, true, false));
    assert_eq!(flags(2), (true, true, true));
    assert_eq!(flags(3), (true, false, false));
    assert_eq!(flags(4), (false, false, false));
}

/// What is read first: the second task may write the slot before the third reads
/// it, the fourth may only read it.
fn readers(task: u64, b: &mut Builder) {
    match task {
        0 => {
            b.branch().then_task(1, name("tempted")).then_task(4, name("careful"));
        }
        1 => {
            b.branch().then_task(2, name("maybe")).then_task(3, name("spend"));
        }
        2 => {
            b.branch();
            b.branch().then_task(5, name("earn"));
        }
        3 => {
            b.precondition(above(GOLD, 0)).effect(set(AMMO, 1));
        }
        4 => {
            b.branch().then_task(6, name("peek")).then_task(3, name("spend"));
        }
        5 => {
            b.effect(set(GOLD, 1));
        }
        6 => {
            b.branch();
            b.branch().then_task(3, name("spend"));
        }
        _ => {}
    }
}

#[test]
fn required_slots_are_read_before_they_are_written() {
    let domain = build(readers);
    let gold = domain.components.get(GOLD).expect("registered");
    let required = |key: u64| {
        domain
            .task_summary(key)
            .expect("recorded")
            .required_fields
            .contains(gold)
    };
    // `maybe` can write the gold that `spend` reads.
    assert!(!required(1));
    assert!(!required(2));
    assert!(required(3));
    // `peek` can avoid the gold, and never writes it.
    assert!(required(4));
    assert!(!required(5));
    assert!(!required(6));
    assert!(!required(0));
    let reader = domain.components.get(AMMO).expect("registered");
    assert!(!domain.task_summary(4).expect("recorded").required_fields.contains(reader));
}

#[test]
fn without_costs_the_strategies_agree() {
    for declare in [engage as Declare, unordered, readers, hopeless, doomed] {
        let domain = build(declare);
        for values in [&[(AMMO, 0), (GOLD, 1)][..], &[(AMMO, 3), (KEY, 1)], &[]] {
            let state = state_of(&domain, values);
            let first: Planner = HtnPlanner::new(&domain);
            let mut bounded: Planner = HtnPlanner::new(&domain);
            bounded.set_strategy(HtnSearchStrategy::CostBounded);
            assert_eq!(
                first.plan(PlanRoot::Index(0), &state),
                bounded.plan(PlanRoot::Index(0), &state)
            );
        }
    }
}

#[test]
fn fail_fast_always_has_an_answer() {
    let domain = build(hopeless);
    let mut planner: Planner = HtnPlanner::new(&domain);
    planner
        .set_lookahead(false)
        .set_strategy(HtnSearchStrategy::DepthFirstFailFast);
    let plan = planner.plan(PlanRoot::Index(0), &state_of(&domain, &[])).expect("an answer");
    assert_eq!(plan.status, PlanStatus::Partial);
    assert!(plan.is_empty());
}

#[test]
fn domains_are_looked_up_by_identity_and_name() {
    let domain = build(backtracking);
    assert_eq!(domain.task_index_by_type(2), Some(2));
    assert_eq!(domain.task_index_by_type(50), None);
    assert!(domain.get_task("forge").is_some());
    assert!(domain.get_task("hammer").is_none());
    assert!(domain.root_task().is_compound());
    let names: Vec<&str> = domain.primitive_names().iter().map(|n| n.as_str()).collect();
    assert_eq!(names, ["grab", "open", "forge"]);
    let ammo = domain.components.get(AMMO).unwrap();
    assert_eq!(domain.components.name_of(ammo), "Ammo");
    assert!(domain.components.contains(KEY));
    assert!(!domain.components.contains(42));
    assert_eq!(domain.components.len(), 3);
    assert!(!domain.components.is_empty());
}

// ---- building -----------------------------------------------------------

fn mixed(task: u64, b: &mut Builder) {
    match task {
        0 => {
            b.branch().then_task(1, name("game::both")).then_task(2, name("game::empty"));
        }
        1 => {
            b.effect(set(GOLD, 1));
            b.branch();
        }
        _ => {
            b.select(SelectionPolicy::FirstMatch);
        }
    }
}

#[test]
fn building_collects_every_error() {
    match HtnDomain::from_root(&Source(mixed), 0, name("game::root")).build() {
        Err(HtnError::Builder { errors }) => {
            assert_eq!(
                errors,
                vec![
                    "task mixes compound (`branch`) and primitive (`precondition`/`effect`/`action`) \
                     declarations"
                        .to_string(),
                    "`select` declares a branch-selection policy on a primitive task".to_string(),
                ]
            );
        }
        Err(e) => panic!("{e:?}"),
        Ok(_) => panic!("the domain is invalid"),
    }
}

fn cyclic(task: u64, b: &mut Builder) {
    match task {
        0 => {
            let m = b.branch();
            let x = m.subtask(1, name("x"));
            let y = m.subtask(1, name("y"));
            m.before(x, y);
            m.before(y, x);
        }
        _ => {
            b.effect(bump(GOLD, 1));
        }
    }
}

#[test]
fn cyclic_constraints_are_build_errors() {
    match HtnDomain::from_root(&Source(cyclic), 0, name("game::root")).build() {
        Err(HtnError::Builder { errors }) => assert_eq!(errors.len(), 1),
        _ => panic!("the constraints are cyclic"),
    }
}

fn primitive_root(_task: u64, b: &mut Builder) {
    b.effect(bump(GOLD, 1));
}

#[test]
fn a_root_must_be_compound() {
    assert!(HtnDomain::from_root(&Source(primitive_root), 0, name("game::root")).build().is_err());
}

/// Both branches need the toolbox.
fn workshop(task: u64, b: &mut Builder) {
    match task {
        0 => {
            b.branch().then_task(1, name("saw")).then_task(1, name("saw")).then_task(2, name("paint"));
        }
        1 => {
            b.effect(bump(GOLD, 1));
        }
        _ => {
            b.effect(bump(AMMO, 1));
        }
    }
}

#[test]
fn shared_tasks_run_once() {
    let twice = build(workshop);
    assert_eq!(names_of(&plan_with(&twice, &[])), ["saw", "saw", "paint"]);
    let once = HtnDomain::from_root(&Source(workshop), 0, name("game::root"))
        .share_task(1)
        .build()
        .expect("the domain builds");
    assert_eq!(names_of(&plan_with(&once, &[])), ["saw", "paint"]);
    assert!(once.components.slots.iter().any(|s| s.key == SlotKey::SharedMarks));
}

#[test]
fn only_recorded_primitives_are_shared() {
    match HtnDomain::from_root(&Source(workshop), 0, name("game::root")).share_task(0).build() {
        Err(HtnError::Builder { errors }) => {
            assert_eq!(errors, vec!["share_task: `game::root` is not a primitive task".to_string()])
        }
        _ => panic!("a compound task was shared"),
    }
    match HtnDomain::from_root(&Source(workshop), 0, name("game::root")).share_task(8).build() {
        Err(HtnError::Builder { errors }) => assert!(errors[0].contains("not recorded")),
        _ => panic!("an unknown task was shared"),
    }
}

fn locked(task: u64, b: &mut Builder) {
    match task {
        0 => {
            b.branch().then_task(1, name("open"));
        }
        1 => {
            b.precondition(is(KEY, 1)).effect(set(GOLD, 1));
        }
        _ => {
            b.effect(set(KEY, 1));
        }
    }
}

#[test]
fn insertion_fills_the_gaps() {
    let without = build(locked);
    let planner: Planner = HtnPlanner::new(&without);
    assert!(planner.plan(PlanRoot::Index(0), &state_of(&without, &[])).is_err());
    let with = HtnDomain::from_root(&Source(locked), 0, name("game::root"))
        .insertable(&Source(locked), 5, name("forge"))
        .with_insertion()
        .build()
        .expect("the domain builds");
    assert_eq!(names_of(&plan_with(&with, &[])), ["forge", "open"]);
    assert_eq!(names_of(&plan_with(&with, &[(KEY, 1)])), ["open"]);
}

fn with_gaps(declare: Declare) -> Domain {
    HtnDomain::from_root(&Source(declare), 0, name("game::root"))
        .insertable(&Source(declare), 9, name("extra"))
        .with_insertion()
        .build()
        .expect("the domain builds")
}

#[test]
fn insertion_leaves_pauses_between_the_members() {
    let domain = with_gaps(paused);
    let planner: Planner = HtnPlanner::new(&domain);
    let plan = planner.plan(PlanRoot::Index(0), &state_of(&domain, &[])).expect("a plan");
    assert!(plan.is_paused());
    assert_eq!(names_of(&plan), ["prepare"]);
    let point = plan.resume.as_ref().expect("a resume point");
    let rest = planner.resume(point, &state_of(&domain, &[(KEY, 1)])).expect("a plan");
    assert_eq!(names_of(&rest), ["finish"]);
    assert!(rest.is_complete());
}

fn paused_at_the_ends(task: u64, b: &mut Builder) {
    match task {
        0 => {
            b.branch()
                .precondition(is(AMMO, 0))
                .then_task(1, name("prepare"))
                .then_task(2, name("finish"))
                .pause_plan();
            b.branch()
                .precondition(is(AMMO, 1))
                .pause_plan()
                .then_task(1, name("prepare"));
        }
        _ => {
            b.effect(bump(GOLD, 1));
        }
    }
}

#[test]
fn insertion_leaves_pauses_at_the_ends() {
    for domain in [build(paused_at_the_ends), with_gaps(paused_at_the_ends)] {
        let planner: Planner = HtnPlanner::new(&domain);
        let plan = planner.plan(PlanRoot::Index(0), &state_of(&domain, &[])).expect("a plan");
        assert!(plan.is_complete());
        assert_eq!(names_of(&plan), ["prepare", "finish"]);
        let plan =
            planner.plan(PlanRoot::Index(0), &state_of(&domain, &[(AMMO, 1)])).expect("a plan");
        assert!(plan.is_paused());
        assert!(plan.is_empty());
    }
}

// ---- backward planning --------------------------------------------------

fn craft(task: u64, b: &mut Builder) {
    match task {
        0 => {
            b.branch().then_task(1, name("mine"));
            b.branch().then_task(2, name("smelt"));
        }
        1 => {
            b.effect(bump(GOLD, 1));
        }
        _ => {
            b.precondition(above(GOLD, 0)).effect(set(KEY, 1)).effect(set(GOLD, 0));
        }
    }
}

fn with_goal(goal: &[(u64, i32)]) -> Domain {
    let mut draft: GoalBuilder<FieldModel> = GoalBuilder::new();
    for &(field, n) in goal {
        draft.effect(set(field, n));
    }
    HtnDomain::from_root(&Source(craft), 0, name("game::root"))
        .goal(100, name("game::own_a_key"), draft)
        .build()
        .expect("the domain builds")
}

#[test]
fn back_planning_covers_the_goal() {
    let domain = with_goal(&[(KEY, 1)]);
    let planner = BackPlanner::new(&domain);
    let plan = planner
        .plan(100, "game::own_a_key", &state_of(&domain, &[(GOLD, 2)]))
        .expect("a plan");
    assert_eq!(names_of(&plan), ["smelt"]);
    assert!(plan.mtr().is_empty());
    assert!(plan.is_complete());
    // Without gold nothing that writes the key can run.
    assert_eq!(
        planner.plan(100, "game::own_a_key", &state_of(&domain, &[])).unwrap_err(),
        HtnError::NoPlan
    );
}

#[test]
fn back_planning_prefers_the_candidate_that_covers_most() {
    let domain = with_goal(&[(KEY, 1), (GOLD, 5)]);
    let plan = BackPlanner::new(&domain)
        .plan(100, "game::own_a_key", &state_of(&domain, &[(GOLD, 2)]))
        .expect("a plan");
    // `smelt` writes both slots; `mine` writes one.
    assert_eq!(names_of(&plan), ["smelt"]);
}

/// The first step writes one slot twice, the second two slots.
fn doubled(task: u64, b: &mut Builder) {
    match task {
        0 => {
            b.branch().precondition(is(AMMO, 9)).then_task(1, name("twice"));
            b.branch().precondition(is(AMMO, 9)).then_task(2, name("both"));
        }
        1 => {
            b.effect(bump(GOLD, 1)).effect(bump(GOLD, 2));
        }
        _ => {
            b.effect(set(KEY, 1)).effect(set(GOLD, 1));
        }
    }
}

#[test]
fn back_planning_counts_a_slot_once() {
    let mut draft: GoalBuilder<FieldModel> = GoalBuilder::new();
    draft.effect(set(KEY, 1)).effect(set(GOLD, 1));
    let domain = HtnDomain::from_root(&Source(doubled), 0, name("game::root"))
        .goal(100, name("game::rich"), draft)
        .build()
        .expect("the domain builds");
    let plan = BackPlanner::new(&domain)
        .plan(100, "game::rich", &state_of(&domain, &[]))
        .expect("a plan");
    assert_eq!(names_of(&plan), ["both"]);
}

#[test]
fn registered_goals_leave_forward_plans_alone() {
    let domain = with_goal(&[(KEY, 1)]);
    let state = state_of(&domain, &[]);
    for mode in [LookaheadMode::Always, LookaheadMode::Adaptive, LookaheadMode::Off] {
        let mut planner: Planner = HtnPlanner::new(&domain);
        planner.set_lookahead_mode(mode);
        let plan = planner.plan(PlanRoot::Index(0), &state).expect("a plan");
        assert_eq!(names_of(&plan), ["mine"]);
        assert_eq!(plan.mtr(), &vec![0]);
    }
}

#[test]
fn back_planning_errors() {
    let domain = with_goal(&[(KEY, 1)]);
    let state = state_of(&domain, &[(GOLD, 2)]);
    match BackPlanner::new(&domain).plan(7, "game::unknown", &state) {
        Err(HtnError::UnregisteredTask { name }) => assert_eq!(name, "game::unknown"),
        other => panic!("{other:?}"),
    }
    assert_eq!(
        BackPlanner::new(&domain).with_budget(0).plan(100, "g", &state).unwrap_err(),
        HtnError::NoPlan
    );
    let empty = with_goal(&[]);
    assert_eq!(
        BackPlanner::new(&empty)
            .plan(100, "g", &state_of(&empty, &[]))
            .unwrap_err(),
        HtnError::NoPlan
    );
}

// ---- Monte Carlo tree search ---------------------------------------------

#[test]
fn mcts_finds_the_cheap_branch() {
    let domain = build(priced);
    let mut planner: Planner = HtnPlanner::new(&domain);
    planner.set_strategy(HtnSearchStrategy::Custom(MctsSearcher::new(10, LeastVisited)));
    let plan = planner.plan(PlanRoot::Index(0), &state_of(&domain, &[])).expect("a plan");
    assert_eq!(names_of(&plan), ["cheap"]);
    assert!(plan.mtr().is_empty());
}

#[test]
fn mcts_expands_branches_in_declaration_order() {
    let domain = build(priced);
    let state = state_of(&domain, &[]);
    let expected = ["dear", "cheap", "cheap"];
    for iterations in 1..4u32 {
        let mut planner: Planner = HtnPlanner::new(&domain);
        planner
            .set_strategy(HtnSearchStrategy::Custom(MctsSearcher::new(iterations, LeastVisited)));
        let plan = planner.plan(PlanRoot::Index(0), &state).expect("a plan");
        assert_eq!(names_of(&plan), [expected[iterations as usize - 1]]);
    }
}

/// The first branch of the root leads on to a second choice, whose first branch
/// is dear.
fn nested(task: u64, b: &mut Builder) {
    match task {
        0 => {
            b.branch().then_task(1, name("inner"));
            b.branch().then_task(3, name("middling"));
        }
        1 => {
            b.branch().then_task(2, name("dear"));
            b.branch().then_task(4, name("cheap"));
        }
        2 => {
            b.effect(set(GOLD, 1)).cost(9);
        }
        3 => {
            b.effect(set(GOLD, 1)).cost(5);
        }
        _ => {
            b.effect(set(GOLD, 1)).cost(1);
        }
    }
}

#[test]
fn mcts_searches_below_the_first_choice() {
    let domain = build(nested);
    let state = state_of(&domain, &[]);
    let expected = ["dear", "middling", "middling", "cheap", "cheap"];
    for iterations in 1..6u32 {
        for _ in 0..2 {
            let mut planner: Planner = HtnPlanner::new(&domain);
            planner.set_strategy(HtnSearchStrategy::Custom(MctsSearcher::new(
                iterations,
                LeastVisited,
            )));
            let plan = planner.plan(PlanRoot::Index(0), &state).expect("a plan");
            assert_eq!(names_of(&plan), [expected[iterations as usize - 1]]);
        }
    }
}

#[test]
fn mcts_limits() {
    let domain = build(backtracking);
    let state = state_of(&domain, &[]);
    for searcher in [
        MctsSearcher::new(0, LeastVisited),
        MctsSearcher::new(5, LeastVisited).with_rollout_depth(0),
    ] {
        let mut planner: Planner = HtnPlanner::new(&domain);
        planner.set_strategy(HtnSearchStrategy::Custom(searcher));
        assert_eq!(
            planner.plan(PlanRoot::Index(0), &state).unwrap_err(),
            HtnError::NoPlan
        );
    }
    let mut planner: Planner = HtnPlanner::new(&domain);
    planner.set_strategy(HtnSearchStrategy::Custom(
        MctsSearcher::new(5, LeastVisited).with_exploration(LeastVisited),
    ));
    let plan = planner.plan(PlanRoot::Index(0), &state).expect("a plan");
    assert_eq!(names_of(&plan), ["forge", "open"]);
}

// ---- adversarial planning -------------------------------------------------

/// Max adds one or two; min takes away one, or three where max took two.
fn game(task: u64, b: &mut Builder) {
    match task {
        0 => {
            b.branch().then_task(2, name("greedy"));
            b.branch().then_task(3, name("modest"));
        }
        1 => {
            b.branch().then_task(4, name("take"));
            b.branch().precondition(above(GOLD, 1)).then_task(5, name("rob"));
        }
        2 => {
            b.effect(bump(GOLD, 2));
        }
        3 => {
            b.effect(bump(GOLD, 1));
        }
        4 => {
            b.effect(bump(GOLD, -1));
        }
        5 => {
            b.effect(bump(GOLD, -3));
        }
        _ => {}
    }
}

fn game_domain() -> Domain {
    HtnDomain::from_root(&Source(game), 0, name("game::max"))
        .root(&Source(game), 1, name("game::min"))
        .build()
        .expect("the domain builds")
}

#[test]
fn max_sees_the_answer_coming() {
    let domain = game_domain();
    let state = state_of(&domain, &[(GOLD, 0)]);
    let gold = FieldScore::Slot(domain.components.get(GOLD).unwrap());
    let ahtn = Ahtn::new(&domain);
    let found = ahtn
        .search(0, "game::max", 1, "game::min", &state, &gold, 10)
        .expect("both roots are compound")
        .expect("max has a plan");
    assert_eq!(found.value, 0);
    let modest = domain.task_index_by_type(3).unwrap() as u32;
    assert_eq!(found.plan, vec![modest]);
    // One action ahead, greed looks best.
    let near = ahtn
        .search(0, "game::max", 1, "game::min", &state, &gold, 1)
        .unwrap()
        .unwrap();
    assert_eq!(near.value, 2);
    assert_eq!(near.plan, vec![domain.task_index_by_type(2).unwrap() as u32]);
    assert_eq!(int_at(&domain, &state, GOLD), 0);
}

#[test]
fn a_stuck_player_loses() {
    let domain = game_domain();
    let state = state_of(&domain, &[(GOLD, 0)]);
    let gold = FieldScore::Slot(domain.components.get(GOLD).unwrap());
    // Without decompositions max cannot move at all.
    let none = Ahtn::new(&domain)
        .with_decomposition_budget(0)
        .search(0, "game::max", 1, "game::min", &state, &gold, 10)
        .unwrap();
    assert!(none.is_none());
    // With one, max moves and min is stuck.
    let win = Ahtn::new(&domain)
        .with_decomposition_budget(1)
        .search(0, "game::max", 1, "game::min", &state, &gold, 10)
        .unwrap()
        .unwrap();
    assert_eq!(win.value, i64::MAX);
}

#[test]
fn adversarial_roots_are_checked() {
    let domain = game_domain();
    let state = state_of(&domain, &[]);
    let score = FieldScore::Constant(0);
    let ahtn = Ahtn::new(&domain);
    match ahtn.search(2, "game::greedy", 1, "game::min", &state, &score, 3) {
        Err(HtnError::Builder { errors }) => assert_eq!(
            errors,
            vec!["adversarial root `game::greedy` must be a compound task".to_string()]
        ),
        _ => panic!("a primitive root"),
    }
    match ahtn.search(0, "game::max", 55, "game::ghost", &state, &score, 3) {
        Err(HtnError::UnregisteredTask { name }) => assert_eq!(name, "game::ghost"),
        _ => panic!("an unknown root"),
    }
}

// ---- the driver's turn ------------------------------------------------------

fn config(domain: Domain) -> HtnConfig<FieldModel, Mcts> {
    HtnConfig::new(domain)
}

/// Runs one turn against a world that is a scratchpad; returns the step executed.
fn turn(
    config: &HtnConfig<FieldModel, Mcts>,
    agent: &mut HtnAgent,
    every: Option<PlanEvery>,
    world: &mut PlanState<Value>,
) -> Option<usize> {
    let mut action = begin_turn(&config.domain, agent, every);
    let mut first = true;
    loop {
        match action {
            TurnAction::Plan => {
                let mut trace = Vec::new();
                let result = plan_for(config, &None, world, &mut trace);
                action = planned(&config.domain, agent, every, result);
            }
            TurnAction::Check(step) => {
                let holds = match &config.domain.tasks[step] {
                    Task::Primitive(p) => p.preconditions_met(world),
                    _ => false,
                };
                action = checked(agent, step, holds, first);
                first = first && holds;
            }
            TurnAction::Execute(step) => {
                commit_step(&config.domain, step, world);
                executed(agent);
                return Some(step);
            }
            TurnAction::Finish => return None,
        }
    }
}

#[test]
fn an_agent_executes_one_step_per_turn() {
    let config = config(build(backtracking));
    let mut world = state_of(&config.domain, &[]);
    let mut agent = HtnAgent::default();
    assert_eq!(turn(&config, &mut agent, None, &mut world), Some(3));
    assert_eq!(agent.cursor, 1);
    assert_eq!(int_at(&config.domain, &world, KEY), 1);
    assert_eq!(turn(&config, &mut agent, None, &mut world), Some(2));
    assert!(agent.plan.is_none());
    assert_eq!(agent.cursor, 0);
    assert_eq!(int_at(&config.domain, &world, AMMO), 9);
}

#[test]
fn drift_replans_in_the_same_turn() {
    let config = config(build(backtracking));
    let mut world = state_of(&config.domain, &[]);
    let mut agent = HtnAgent::default();
    turn(&config, &mut agent, None, &mut world);
    // The key is lost: opening fails its check, and the agent forges again.
    world = state_of(&config.domain, &[(KEY, 0)]);
    assert_eq!(turn(&config, &mut agent, None, &mut world), Some(3));
    assert_eq!(agent.cursor, 1);
}

#[test]
fn the_throttle_paces_planning() {
    let config = config(build(hopeless));
    let mut world = state_of(&config.domain, &[]);
    let mut agent = HtnAgent::default();
    let every = Some(PlanEvery(3));
    assert_eq!(begin_turn(&config.domain, &mut agent, every), TurnAction::Plan);
    assert_eq!(turn(&config, &mut agent, every, &mut world), None);
    assert_eq!(agent.plan_deferral, 2);
    assert_eq!(begin_turn(&config.domain, &mut agent, every), TurnAction::Finish);
    assert_eq!(begin_turn(&config.domain, &mut agent, every), TurnAction::Finish);
    assert_eq!(begin_turn(&config.domain, &mut agent, every), TurnAction::Plan);
    // Without the throttle the agent tries every time.
    assert_eq!(begin_turn(&config.domain, &mut agent, None), TurnAction::Plan);
    assert_eq!(begin_turn(&config.domain, &mut agent, Some(PlanEvery::default())), TurnAction::Plan);
}

#[test]
fn an_empty_plan_leaves_the_agent_planless() {
    let config = config(build(engage));
    let mut world = state_of(&config.domain, &[(AMMO, 4)]);
    let mut agent = HtnAgent::default();
    assert_eq!(turn(&config, &mut agent, None, &mut world), None);
    assert!(agent.plan.is_none());
}

#[test]
fn overrides_replace_strategy_and_budget() {
    let config = config(build(priced))
        .with_strategy(HtnSearchStrategy::DepthFirst)
        .with_sanity_limit(100)
        .with_lookahead(true)
        .with_lookahead_mode(LookaheadMode::Off)
        .with_debug_trace(true);
    let state = state_of(&config.domain, &[]);
    let mut trace = Vec::new();
    let plain = plan_for(&config, &None, &state, &mut trace).expect("a plan");
    assert_eq!(names_of(&plain), ["dear"]);
    assert!(!trace.is_empty());
    let cheap = Some(SearchOverride {
        strategy: Some(HtnSearchStrategy::CostBounded),
        sanity_limit: None,
    });
    trace.clear();
    let plan = plan_for(&config, &cheap, &state, &mut trace).expect("a plan");
    assert_eq!(names_of(&plan), ["cheap"]);
    let tight = Some(SearchOverride { strategy: None, sanity_limit: Some(0) });
    trace.clear();
    let cut = plan_for(&config, &tight, &state, &mut trace).expect("a prefix");
    assert_eq!(cut.status, PlanStatus::Partial);
    let searched = Some(SearchOverride {
        strategy: Some(HtnSearchStrategy::Custom(MctsSearcher::new(9, LeastVisited))),
        sanity_limit: None,
    });
    trace.clear();
    let found = plan_for(&config, &searched, &state, &mut trace).expect("a plan");
    assert_eq!(names_of(&found), ["cheap"]);
    assert!(trace.is_empty());
}

fn hopeful(task: u64, b: &mut Builder) {
    match task {
        0 => {
            b.branch().then_task(1, name("throw")).then_task(2, name("collect"));
        }
        1 => {
            b.effect(bump(AMMO, -1)).expected(set(KEY, 1));
        }
        _ => {
            b.precondition(is(KEY, 1)).effect(bump(GOLD, 1));
        }
    }
}

#[test]
fn expected_effects_are_planned_and_never_committed() {
    let domain = build(hopeful);
    assert_eq!(names_of(&plan_with(&domain, &[(AMMO, 1)])), ["throw", "collect"]);
    let mut world = state_of(&domain, &[(AMMO, 1)]);
    let slots = commit_step(&domain, 1, &mut world);
    assert_eq!(slots, vec![domain.components.get(AMMO).unwrap()]);
    assert_eq!(int_at(&domain, &world, AMMO), 0);
    assert_eq!(int_at(&domain, &world, KEY), 0);
}

#[test]
fn patches_are_noticed_once() {
    let mut seen = None;
    assert!(!patch_landed(&mut seen, 4));
    assert!(!patch_landed(&mut seen, 4));
    assert!(patch_landed(&mut seen, 5));
    assert!(!patch_landed(&mut seen, 5));
    let config = config(build(backtracking));
    let mut world = state_of(&config.domain, &[]);
    let mut agent = HtnAgent::default();
    turn(&config, &mut agent, None, &mut world);
    assert!(agent.plan.is_some());
    drop_plan(&mut agent);
    assert!(agent.plan.is_none());
    assert_eq!(agent.cursor, 0);
}

#[test]
fn scratchpads_take_over_components() {
    let domain = build(engage);
    let state = PlanState::extract(&domain.components, vec![Some(Value::Int(12))]);
    assert_eq!(int_at(&domain, &state, AMMO), 12);
    let mut again = PlanState::extract(&domain.components, vec![None]);
    assert_eq!(int_at(&domain, &again, AMMO), 0);
    again.refresh(&domain.components, vec![Some(Value::Int(7))]);
    assert_eq!(int_at(&domain, &again, AMMO), 7);
    let copy = again.duplicate();
    assert_eq!(copy.len(), 1);
    assert!(!copy.is_empty());
}
