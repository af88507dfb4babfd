//! Search strategies and the decomposition-trace contract.

use crate::domain::HtnDomain;
use crate::model::{ModelState, PlanModel};
use crate::planner::Plan;
use crate::state::PlanState;
use ustr::Ustr;
use vstd::prelude::*;

verus! {

/// The search algorithm used to expand the task network.
pub enum HtnSearchStrategy<S> {
    /// Left-to-right depth-first search with full backtracking and look-ahead
    /// pruning.
    DepthFirst,
    /// Depth-first search that gives up on the first failure and returns the
    /// partial plan (no backtracking).
    DepthFirstFailFast,
    /// Depth-first branch-and-bound on accumulated primitive cost: keeps the
    /// cheapest complete plan found within the budget, and prunes what cannot
    /// strictly beat it.
    CostBounded,
    /// Caller-supplied strategy.
    Custom(S),
}

impl<S> Default for HtnSearchStrategy<S> {
    fn default() -> (s: HtnSearchStrategy<S>)
        ensures
            s is DepthFirst,
    {
        HtnSearchStrategy::DepthFirst
    }
}

/// A pluggable search strategy.
pub trait Searcher<M: PlanModel>: Sized {
    /// What the strategy may return for a domain and a state.
    spec fn may_return(
        &self,
        domain: HtnDomain<M>,
        state: ModelState<M>,
        found: Option<Plan>,
    ) -> bool;

    /// Searches the domain from `state`. Returns the best plan found (`None`
    /// if nothing decomposes).
    fn search(&self, domain: &HtnDomain<M>, state: &PlanState<M::Component>) -> (found: Option<Plan>)
        requires
            domain.wf(),
            domain.baked(),
            state@.len() == domain.slots(),
        ensures
            self.may_return(*domain, state@, found),
    ;
}

/// When the forward planner's look-ahead sweep runs.
#[derive(Debug, Clone, Copy, PartialEq, Eq, Structural)]
pub enum LookaheadMode {
    /// Sweep before every method commitment.
    Always,
    /// Sweep only where it pays for itself: single-subtask, totally-ordered
    /// methods with a terminating step are not swept, and a method that was
    /// swept several times in a row without a refutation is swept for
    /// refutation only.
    Adaptive,
    /// Never sweep.
    Off,
}

impl Default for LookaheadMode {
    fn default() -> (m: LookaheadMode)
        ensures
            m is Adaptive,
    {
        LookaheadMode::Adaptive
    }
}

/// Per-agent search override: the driver uses it in place of the global
/// configuration for that agent.
pub struct SearchOverride<S> {
    /// Overrides the global strategy for this agent.
    pub strategy: Option<HtnSearchStrategy<S>>,
    /// Overrides the global sanity budget for this agent.
    pub sanity_limit: Option<usize>,
}

impl<S> Default for SearchOverride<S> {
    fn default() -> (o: SearchOverride<S>)
        ensures
            o.strategy is None,
            o.sanity_limit is None,
    {
        SearchOverride { strategy: None, sanity_limit: None }
    }
}

/// What happened to a traced branch.
#[derive(Debug, Clone, Copy, PartialEq, Eq, Structural)]
pub enum TraceOutcome {
    /// The branch was selected and its subtasks committed.
    Selected,
    /// The branch's preconditions failed (it was never offered to the search).
    PrecondFailed,
    /// The branch's subtree failed and the search backtracked past it.
    Backtracked,
}

/// One branch-selection decision, emitted per commitment when tracing is
/// enabled.
#[derive(Debug, Clone, Copy, PartialEq, Eq)]
pub struct DecompositionTrace {
    /// Index of the compound task.
    pub compound: u32,
    /// Declaration index of the branch the event is about.
    pub branch: u32,
    /// The branch's declared name, if any.
    pub branch_name: Option<Ustr>,
    /// What happened to the branch.
    pub outcome: TraceOutcome,
}

} // verus!
