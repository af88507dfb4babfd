//! Backward (goal-state) planning.
//!
//! A goal is a list of desired effects. The planner greedily builds a plan that
//! writes every slot that the goal's effects write: as long as a slot is still
//! needed, it commits the candidate that covers the most needed slots and whose
//! preconditions hold in the simulated state. A primitive task contributes
//! itself; a compound task contributes the whole member sequence of one of its
//! branches, in its first order, chosen by the same coverage and expanded
//! recursively. Candidates are tried best first; a failed expansion is undone,
//! except for the budget it used. There is no backtracking inside an expansion.

use crate::domain::{writes_of, CompoundTask, HtnDomain, Method, PrimitiveTask, Task};
use crate::error::{HtnError, HtnResult};
use crate::gtn::holds_index;
use crate::mcts::{
    finished, lemma_order_in_range, lemma_run_order_known, turn, turns, FrontierView, Turn,
};
use crate::model::{some_writes, Effect, ModelState, PlanModel};
use crate::order::SubtaskOrder;
use crate::planner::{compiles, materialize, plan_ok, Plan, PlanStatus, ResumeStep};
use crate::refinement::{lemma_partial_work, lemma_work_members, method_work};
use crate::soundness::{executable, lemma_plan_prefix, plan_state};
use crate::state::{copy_flags, copy_indices, FieldSet, PlanState, StateView};
use crate::summaries::{
    cost_bounds, method_shape, method_summarized, must_write, network, rule_holds, some_member, stage,
    ClosureRule,
};
use vstd::prelude::*;
use vstd::string::StrSliceExecFns;

verus! {

/// Nesting cap for compound expansion.
pub const MAX_EXPANSION_DEPTH: usize = 64;

/// The default budget of a back-planning run, in primitive steps.
pub const DEFAULT_BACK_PLANNING_BUDGET: usize = 200;

/// One candidate commitment.
#[derive(Clone, Copy, Debug)]
pub enum Candidate {
    /// A primitive task.
    Primitive(usize),
    /// A compound task through one of its branches.
    Compound(usize, usize),
}

/// A point of the chaining.
pub struct ChainView<C> {
    /// The simulated state.
    pub state: StateView<C>,
    /// Which slots are still needed.
    pub needed: Seq<bool>,
    /// The primitive tasks so far.
    pub steps: Seq<usize>,
}

/// What an expansion leads to: the point it reaches, if it succeeds, and the
/// budget left.
pub struct Expansion<C> {
    /// The point it reaches.
    pub at: Option<ChainView<C>>,
    /// The budget left.
    pub left: nat,
}

/// How many of the slots below `k` are listed and needed, however often they are
/// listed.
pub open spec fn listed_needs(slots: Seq<usize>, needed: Seq<bool>, k: nat) -> nat
    decreases k,
{
    if k == 0 {
        0
    } else {
        listed_needs(slots, needed, (k - 1) as nat) + if slots.contains((k - 1) as usize)
            && needed[k - 1] {
            1nat
        } else {
            0nat
        }
    }
}

/// How many of the slots below `k` are in the set and needed.
pub open spec fn covered_needs(set: FieldSet, needed: Seq<bool>, k: nat) -> nat
    decreases k,
{
    if k == 0 {
        0
    } else {
        covered_needs(set, needed, (k - 1) as nat) + if set.has(k - 1) && needed[k - 1] {
            1nat
        } else {
            0nat
        }
    }
}

/// The needs that are left once the listed slots are written.
pub open spec fn cleared(needed: Seq<bool>, written: Seq<usize>) -> Seq<bool> {
    Seq::new(needed.len(), |i: int| needed[i] && !written.contains(i as usize))
}

/// Committing one primitive: its preconditions hold and the budget allows it.
pub open spec fn committed_step<M: PlanModel>(
    d: HtnDomain<M>,
    task: usize,
    v: ChainView<M::Component>,
    budget: nat,
) -> Expansion<M::Component> {
    match d.tasks@[task as int] {
        Task::Primitive(p) => if p.ready(v.state) && budget > 0 {
            Expansion {
                at: Some(
                    ChainView {
                        state: p.after(v.state),
                        needed: cleared(v.needed, writes_of(p.effects@)),
                        steps: v.steps.push(task),
                    },
                ),
                left: (budget - 1) as nat,
            }
        } else {
            Expansion { at: None, left: budget }
        },
        _ => Expansion { at: None, left: budget },
    }
}

/// The branch of a nested compound task, among its first `n`: the applicable one
/// that covers the most needed slots, the earlier one on a tie. With it, what it
/// covers.
pub open spec fn nested_choice<M: PlanModel>(
    c: CompoundTask<M>,
    s: ModelState<M>,
    needed: Seq<bool>,
    n: nat,
) -> Option<(nat, nat)>
    decreases n,
{
    if n == 0 {
        None
    } else {
        let best = nested_choice(c, s, needed, (n - 1) as nat);
        let m = c.methods@[n - 1];
        let score = covered_needs(m.guaranteed_writes, needed, needed.len());
        if m.valid(s) && (best matches Some(b) ==> score > b.0) {
            Some((score, (n - 1) as nat))
        } else {
            best
        }
    }
}

/// Expanding one member of a branch.
pub open spec fn expanded_member<M: PlanModel>(
    d: HtnDomain<M>,
    sub: usize,
    v: ChainView<M::Component>,
    budget: nat,
    depth: nat,
) -> Expansion<M::Component>
    decreases MAX_EXPANSION_DEPTH + 1 - depth, 0nat, 0int,
{
    let fail = Expansion { at: None, left: budget };
    match d.tasks@[sub as int] {
        Task::Primitive(_) => committed_step(d, sub, v, budget),
        Task::Compound(inner) => if !d.summaries@[sub as int].terminating || depth
            >= MAX_EXPANSION_DEPTH {
            fail
        } else {
            match nested_choice(inner, v.state, v.needed, inner.methods@.len()) {
                Some((_, choice)) => expanded_members(
                    d,
                    inner.methods@[choice as int],
                    0,
                    v,
                    budget,
                    depth + 1,
                ),
                None => fail,
            }
        },
        Task::Goal(_) => fail,
    }
}

/// Expanding a branch's members from position `k` on.
pub open spec fn expanded_members<M: PlanModel>(
    d: HtnDomain<M>,
    m: Method<M>,
    k: nat,
    v: ChainView<M::Component>,
    budget: nat,
    depth: nat,
) -> Expansion<M::Component>
    decreases MAX_EXPANSION_DEPTH + 1 - depth, 1nat, m.run_order().len() - k,
{
    if k >= m.run_order().len() {
        Expansion { at: Some(v), left: budget }
    } else {
        let r = expanded_member(d, m.run_order()[k as int], v, budget, depth);
        match r.at {
            Some(next) => expanded_members(d, m, k + 1, next, r.left, depth),
            None => r,
        }
    }
}

/// Expanding a candidate.
pub open spec fn expanded<M: PlanModel>(
    d: HtnDomain<M>,
    candidate: Candidate,
    v: ChainView<M::Component>,
    budget: nat,
) -> Expansion<M::Component> {
    match candidate {
        Candidate::Primitive(i) => committed_step(d, i, v, budget),
        Candidate::Compound(i, m) => expanded_members(
            d,
            d.tasks@[i as int]->Compound_0.methods@[m as int],
            0,
            v,
            budget,
            0,
        ),
    }
}

/// Where an entry with this score goes in a best-first list, from position `k`
/// on: behind the entries that score as much.
pub open spec fn place(list: Seq<(usize, Candidate)>, score: usize, k: nat) -> nat
    decreases list.len() - k,
{
    if k >= list.len() || list[k as int].0 < score {
        k
    } else {
        place(list, score, k + 1)
    }
}

/// A best-first list with one more entry.
pub open spec fn with_entry(
    list: Seq<(usize, Candidate)>,
    entry: (usize, Candidate),
) -> Seq<(usize, Candidate)> {
    list.insert(place(list, entry.0, 0) as int, entry)
}

/// The entry of a candidate that covers this many needed slots: none where it
/// covers nothing.
pub open spec fn offered(
    list: Seq<(usize, Candidate)>,
    score: nat,
    candidate: Candidate,
) -> Seq<(usize, Candidate)> {
    if score > 0 {
        with_entry(list, (score as usize, candidate))
    } else {
        list
    }
}

/// A best-first list with the first `n` branches of a compound task offered.
pub open spec fn ranked_branches<M: PlanModel>(
    c: CompoundTask<M>,
    task: usize,
    v: ChainView<M::Component>,
    list: Seq<(usize, Candidate)>,
    n: nat,
) -> Seq<(usize, Candidate)>
    decreases n,
{
    if n == 0 {
        list
    } else {
        let before = ranked_branches(c, task, v, list, (n - 1) as nat);
        let m = c.methods@[n - 1];
        if m.valid(v.state) {
            offered(
                before,
                covered_needs(m.guaranteed_writes, v.needed, v.needed.len()),
                Candidate::Compound(task, (n - 1) as usize),
            )
        } else {
            before
        }
    }
}

/// The candidates among the first `n` tasks, best first; ties break by task
/// index, then branch index.
pub open spec fn ranked<M: PlanModel>(
    d: HtnDomain<M>,
    v: ChainView<M::Component>,
    n: nat,
) -> Seq<(usize, Candidate)>
    decreases n,
{
    if n == 0 {
        Seq::empty()
    } else {
        let before = ranked(d, v, (n - 1) as nat);
        match d.tasks@[n - 1] {
            Task::Primitive(p) => if p.ready(v.state) {
                offered(
                    before,
                    listed_needs(p.guaranteed_slot_list@, v.needed, v.needed.len()),
                    Candidate::Primitive((n - 1) as usize),
                )
            } else {
                before
            },
            Task::Compound(c) => if d.summaries@[n - 1].terminating {
                ranked_branches(c, (n - 1) as usize, v, before, c.methods@.len())
            } else {
                before
            },
            Task::Goal(_) => before,
        }
    }
}

/// The first candidate from position `k` on that expands.
pub open spec fn first_expansion<M: PlanModel>(
    d: HtnDomain<M>,
    list: Seq<(usize, Candidate)>,
    k: nat,
    v: ChainView<M::Component>,
    budget: nat,
) -> Expansion<M::Component>
    decreases list.len() - k,
{
    if k >= list.len() {
        Expansion { at: None, left: budget }
    } else {
        let r = expanded(d, list[k as int].1, v, budget);
        match r.at {
            Some(_) => r,
            None => first_expansion(d, list, k + 1, v, r.left),
        }
    }
}

/// The steps that chaining finds, if it gets to where nothing is needed.
pub open spec fn chained<M: PlanModel>(
    d: HtnDomain<M>,
    v: ChainView<M::Component>,
    budget: nat,
) -> Option<Seq<usize>>
    decreases budget,
{
    if !v.needed.contains(true) {
        Some(v.steps)
    } else if budget == 0 {
        None
    } else {
        let r = first_expansion(d, ranked(d, v, d.tasks@.len()), 0, v, budget);
        match r.at {
            // An expansion that uses no budget adds no step.
            Some(next) => if r.left < budget {
                chained(d, next, r.left)
            } else {
                None
            },
            None => None,
        }
    }
}

/// Where chaining toward a goal starts.
pub open spec fn chain_start<M: PlanModel>(
    d: HtnDomain<M>,
    written: Seq<usize>,
    s: ModelState<M>,
) -> ChainView<M::Component> {
    ChainView {
        state: s,
        needed: Seq::new(d.slots(), |i: int| written.contains(i as usize)),
        steps: Seq::empty(),
    }
}

/// A point of the chaining.
pub struct Chain<C> {
    /// The simulated state.
    pub state: PlanState<C>,
    /// Which slots are still needed.
    pub needed: Vec<bool>,
    /// The primitive tasks so far.
    pub steps: Vec<usize>,
}

impl<C> Chain<C> {
    /// What the point stands for.
    pub open spec fn view(&self) -> ChainView<C> {
        ChainView { state: self.state@, needed: self.needed@, steps: self.steps@ }
    }
}

/// Whether a point fits a domain.
pub open spec fn chain_fits<M: PlanModel>(d: HtnDomain<M>, v: ChainView<M::Component>) -> bool {
    &&& v.state.len() == d.slots()
    &&& v.needed.len() == d.slots()
    &&& plan_ok(d, v.steps)
}

/// Whether a candidate names what the domain has.
pub open spec fn candidate_ok<M: PlanModel>(d: HtnDomain<M>, candidate: Candidate) -> bool {
    match candidate {
        Candidate::Primitive(i) => i < d.tasks@.len(),
        Candidate::Compound(i, m) => i < d.tasks@.len() && d.tasks@[i as int] is Compound && m
            < d.tasks@[i as int]->Compound_0.methods@.len(),
    }
}

/// Whether the domain is well-formed and has a summary for each task.
pub open spec fn has_summaries<M: PlanModel>(d: HtnDomain<M>) -> bool {
    &&& d.wf()
    &&& d.summaries@.len() == d.tasks@.len()
}

/// How many of the listed slots are needed; a slot that is listed twice counts
/// once.
fn count_listed(slots: &Vec<usize>, needed: &Vec<bool>) -> (count: usize)
    ensures
        count == listed_needs(slots@, needed@, needed@.len()),
{
    let mut count: usize = 0;
    for k in 0..needed.len()
        invariant
            count == listed_needs(slots@, needed@, k as nat),
            count <= k,
    {
        if needed[k] && holds_index(slots, k) {
            count = count + 1;
        }
    }
    count
}

/// How many of the slots in the set are needed.
fn count_covered(set: &FieldSet, needed: &Vec<bool>) -> (count: usize)
    ensures
        count == covered_needs(*set, needed@, needed@.len()),
{
    let mut count: usize = 0;
    for k in 0..needed.len()
        invariant
            count == covered_needs(*set, needed@, k as nat),
            count <= k,
    {
        if set.contains(k) && needed[k] {
            count = count + 1;
        }
    }
    count
}

/// Strikes the listed slots off the needs.
fn strike(needed: &mut Vec<bool>, written: &Vec<usize>)
    requires
        forall|i: int| 0 <= i < written@.len() ==> (#[trigger] written@[i]) < old(needed)@.len(),
    ensures
        final(needed)@ == cleared(old(needed)@, written@),
{
    let ghost before = needed@;
    for k in 0..written.len()
        invariant
            forall|i: int| 0 <= i < written@.len() ==> (#[trigger] written@[i]) < before.len(),
            needed@.len() == before.len(),
            forall|i: int|
                0 <= i < before.len() ==> (#[trigger] needed@[i]) == (before[i]
                    && !written@.take(k as int).contains(i as usize)),
    {
        let w: usize = written[k];
        let ghost earlier = needed@;
        needed.set(w, false);
        proof {
            let t = written@.take(k as int);
            let t2 = written@.take(k + 1);
            assert(t2 =~= t.push(w));
            assert forall|i: int| 0 <= i < before.len() implies (#[trigger] needed@[i]) == (
            before[i] && !t2.contains(i as usize)) by {
                assert(earlier[i] == (before[i] && !t.contains(i as usize)));
                assert(before.len() <= usize::MAX) by {
                    assert(needed.len() <= usize::MAX);
                }
                if i == w {
                    assert(t2[k as int] == w);
                } else if t.contains(i as usize) {
                    let j = t.index_of(i as usize);
                    assert(t2[j] == i as usize);
                } else if t2.contains(i as usize) {
                    let j = t2.index_of(i as usize);
                    if j < k {
                        assert(t[j] == i as usize);
                    }
                }
            }
        }
    }
    assert(written@.take(written@.len() as int) =~= written@);
    assert(needed@ =~= cleared(before, written@));
}

/// A backward planner over a baked domain.
pub struct BackPlanner<'a, M: PlanModel> {
    /// The domain it plans in.
    pub domain: &'a HtnDomain<M>,
    /// The budget of a run, in primitive steps.
    pub budget: usize,
}

impl<'a, M: PlanModel> BackPlanner<'a, M> {
    /// A planner over `domain` with the default budget.
    pub fn new(domain: &'a HtnDomain<M>) -> (p: BackPlanner<'a, M>)
        ensures
            p.domain == domain,
            p.budget == DEFAULT_BACK_PLANNING_BUDGET,
    {
        BackPlanner { domain, budget: DEFAULT_BACK_PLANNING_BUDGET }
    }

    /// Sets the budget of a run, in primitive steps. Exhausting it is reported
    /// as [`HtnError::NoPlan`].
    pub fn with_budget(self, budget: usize) -> (p: BackPlanner<'a, M>)
        ensures
            p == (BackPlanner { budget, ..self }),
    {
        BackPlanner { domain: self.domain, budget }
    }

    /// Appends one primitive: its preconditions must hold in the simulated
    /// state; its effects are applied, and the slots they write leave the needs.
    fn commit_primitive(
        &self,
        task: usize,
        chain: &mut Chain<M::Component>,
        budget: &mut usize,
    ) -> (ok: bool)
        requires
            self.domain.wf(),
            task < self.domain.tasks@.len(),
            chain_fits(*self.domain, old(chain).view()),
        ensures
            ({
                let r = committed_step(*self.domain, task, old(chain).view(), *old(budget) as nat);
                &&& ok == (r.at is Some)
                &&& ok ==> final(chain).view() == r.at->Some_0
                &&& *final(budget) == r.left
            }),
            chain_fits(*self.domain, final(chain).view()),
    {
        assert(self.domain.tasks@[task as int].wf(self.domain.tasks@.len(), self.domain.slots()));
        match &self.domain.tasks[task] {
            Task::Primitive(p) => {
                if !p.preconditions_met(&chain.state) {
                    return false;
                }
                if *budget == 0 {
                    return false;
                }
                *budget = *budget - 1;
                proof {
                    lemma_writes_fit(p.effects@, self.domain.slots());
                }
                p.apply_effects(&mut chain.state);
                strike(&mut chain.needed, &p.guaranteed_slot_list);
                chain.steps.push(task);
                true
            },
            _ => false,
        }
    }

    /// The branch of a nested compound task that covers the most needed slots.
    fn choose_nested(&self, c: &CompoundTask<M>, chain: &Chain<M::Component>) -> (choice: Option<
        usize,
    >)
        requires
            c.wf(self.domain.tasks@.len(), self.domain.slots()),
            chain_fits(*self.domain, chain.view()),
        ensures
            match nested_choice(*c, chain.state@, chain.needed@, c.methods@.len()) {
                Some((_, i)) => choice == Some(i as usize) && i < c.methods@.len(),
                None => choice is None,
            },
    {
        let mut best: Option<(usize, usize)> = None;
        for i in 0..c.methods.len()
            invariant
                c.wf(self.domain.tasks@.len(), self.domain.slots()),
                chain_fits(*self.domain, chain.view()),
                match nested_choice(*c, chain.state@, chain.needed@, i as nat) {
                    Some((score, k)) => best == Some((score as usize, k as usize)) && k < i && score
                        <= usize::MAX,
                    None => best is None,
                },
        {
            let m = &c.methods[i];
            assert(c.methods@[i as int].wf(self.domain.tasks@.len(), self.domain.slots()));
            if crate::model::evaluate_all(&m.preconditions, &chain.state) {
                let score: usize = count_covered(&m.guaranteed_writes, &chain.needed);
                let better: bool = match best {
                    Some((top, _)) => score > top,
                    None => true,
                };
                if better {
                    best = Some((score, i));
                }
            }
        }
        match best {
            Some((_, i)) => Some(i),
            None => None,
        }
    }

    /// Expands a branch's members in order.
    fn expand_members(
        &self,
        m: &Method<M>,
        chain: &mut Chain<M::Component>,
        budget: &mut usize,
        depth: usize,
    ) -> (ok: bool)
        requires
            has_summaries(*self.domain),
            m.wf(self.domain.tasks@.len(), self.domain.slots()),
            chain_fits(*self.domain, old(chain).view()),
            depth <= MAX_EXPANSION_DEPTH,
        ensures
            ({
                let r = expanded_members(
                    *self.domain,
                    *m,
                    0,
                    old(chain).view(),
                    *old(budget) as nat,
                    depth as nat,
                );
                &&& ok == (r.at is Some)
                &&& ok ==> final(chain).view() == r.at->Some_0
                &&& *final(budget) == r.left
            }),
            chain_fits(*self.domain, final(chain).view()),
        decreases MAX_EXPANSION_DEPTH + 1 - depth,
    {
        let mut members: Vec<usize> = Vec::new();
        proof {
            lemma_order_in_range(*m);
            lemma_run_order_known(*self.domain, *m);
        }
        crate::mcts::push_members(&mut members, m);
        let n: usize = members.len();
        assert(members@ =~= m.run_order().reverse());
        for k in 0..n
            invariant
                has_summaries(*self.domain),
                m.wf(self.domain.tasks@.len(), self.domain.slots()),
                chain_fits(*self.domain, chain.view()),
                depth <= MAX_EXPANSION_DEPTH,
                n == m.run_order().len(),
                members@ == m.run_order().reverse(),
                forall|i: int|
                    0 <= i < m.run_order().len() ==> (#[trigger] m.run_order()[i])
                        < self.domain.tasks@.len(),
                expanded_members(
                    *self.domain,
                    *m,
                    0,
                    old(chain).view(),
                    *old(budget) as nat,
                    depth as nat,
                ) == expanded_members(
                    *self.domain,
                    *m,
                    k as nat,
                    chain.view(),
                    *budget as nat,
                    depth as nat,
                ),
        {
            let sub: usize = members[n - 1 - k];
            assert(sub == m.run_order()[k as int]);
            let ghost r = expanded_member(
                *self.domain,
                sub,
                chain.view(),
                *budget as nat,
                depth as nat,
            );
            assert(self.domain.tasks@[sub as int].wf(
                self.domain.tasks@.len(),
                self.domain.slots(),
            ));
            match &self.domain.tasks[sub] {
                Task::Primitive(_) => {
                    if !self.commit_primitive(sub, chain, budget) {
                        return false;
                    }
                },
                Task::Compound(inner) => {
                    if !self.domain.summaries[sub].terminating {
                        return false;
                    }
                    match self.choose_nested(inner, chain) {
                        None => {
                            return false;
                        },
                        Some(choice) => {
                            if depth >= MAX_EXPANSION_DEPTH {
                                return false;
                            }
                            if !self.expand_members(
                                &inner.methods[choice],
                                chain,
                                budget,
                                depth + 1,
                            ) {
                                return false;
                            }
                        },
                    }
                },
                Task::Goal(_) => {
                    return false;
                },
            }
        }
        true
    }

    /// Commits a candidate: appends its primitive sequence, applies the effects
    /// to the simulated state, and strikes the slots they write off the needs.
    /// Where that fails the point is left unfinished, and the caller restores it.
    fn expand(
        &self,
        candidate: &Candidate,
        chain: &mut Chain<M::Component>,
        budget: &mut usize,
    ) -> (ok: bool)
        requires
            has_summaries(*self.domain),
            candidate_ok(*self.domain, *candidate),
            chain_fits(*self.domain, old(chain).view()),
        ensures
            ({
                let r = expanded(
                    *self.domain,
                    *candidate,
                    old(chain).view(),
                    *old(budget) as nat,
                );
                &&& ok == (r.at is Some)
                &&& ok ==> final(chain).view() == r.at->Some_0
                &&& *final(budget) == r.left
            }),
            chain_fits(*self.domain, final(chain).view()),
    {
        match *candidate {
            Candidate::Primitive(i) => self.commit_primitive(i, chain, budget),
            Candidate::Compound(i, m) => match &self.domain.tasks[i] {
                Task::Compound(c) => {
                    assert(self.domain.tasks@[i as int].wf(
                        self.domain.tasks@.len(),
                        self.domain.slots(),
                    ));
                    self.expand_members(&c.methods[m], chain, budget, 0)
                },
                _ => false,
            },
        }
    }
}

proof fn lemma_writes_fit<M: PlanModel>(es: Seq<Effect<M>>, n: nat)
    requires
        crate::model::effects_fit(es, n),
    ensures
        forall|i: int| 0 <= i < writes_of(es).len() ==> (#[trigger] writes_of(es)[i]) < n,
    decreases es.len(),
{
    if es.len() > 0 {
        let front = es.drop_last();
        assert forall|i: int| 0 <= i < front.len() implies (#[trigger] front[i]).wf(n) by {
            assert(es[i].wf(n));
        }
        lemma_writes_fit(front, n);
        let last = es.last().writes@;
        assert(es[es.len() - 1].wf(n));
        assert forall|i: int| 0 <= i < writes_of(es).len() implies (#[trigger] writes_of(es)[i])
            < n by {
            if i >= writes_of(front).len() {
                assert(writes_of(es)[i] == last[i - writes_of(front).len()]);
            } else {
                assert(writes_of(es)[i] == writes_of(front)[i]);
            }
        }
    }
}

/// Puts an entry where it belongs in a best-first list.
fn offer(list: &mut Vec<(usize, Candidate)>, score: usize, candidate: Candidate)
    ensures
        final(list)@ == offered(old(list)@, score as nat, candidate),
{
    if score == 0 {
        return;
    }
    let mut k: usize = 0;
    while k < list.len() && list[k].0 >= score
        invariant
            k <= list@.len(),
            list@ == old(list)@,
            place(list@, score, 0) == place(list@, score, k as nat),
        decreases list@.len() - k,
    {
        k = k + 1;
    }
    list.insert(k, (score, candidate));
}

/// Whether every listed candidate names what the domain has.
pub open spec fn list_ok<M: PlanModel>(d: HtnDomain<M>, list: Seq<(usize, Candidate)>) -> bool {
    forall|i: int| 0 <= i < list.len() ==> candidate_ok(d, (#[trigger] list[i]).1)
}

proof fn lemma_offered_ok<M: PlanModel>(
    d: HtnDomain<M>,
    list: Seq<(usize, Candidate)>,
    score: nat,
    candidate: Candidate,
)
    requires
        list_ok(d, list),
        candidate_ok(d, candidate),
    ensures
        list_ok(d, offered(list, score, candidate)),
{
    if score > 0 {
        lemma_place_bound(list, score as usize, 0);
        let at = place(list, score as usize, 0) as int;
        let more = offered(list, score, candidate);
        assert forall|i: int| 0 <= i < more.len() implies candidate_ok(d, (#[trigger] more[i]).1) by {
            if i < at {
                assert(more[i] == list[i]);
            } else if i > at {
                assert(more[i] == list[i - 1]);
            }
        }
    }
}

proof fn lemma_place_bound(list: Seq<(usize, Candidate)>, score: usize, k: nat)
    requires
        k <= list.len(),
    ensures
        k <= place(list, score, k) <= list.len(),
        forall|j: int| k <= j < place(list, score, k) ==> (#[trigger] list[j]).0 >= score,
        place(list, score, k) < list.len() ==> list[place(list, score, k) as int].0 < score,
    decreases list.len() - k,
{
    if k < list.len() && list[k as int].0 >= score {
        lemma_place_bound(list, score, k + 1);
    }
}

impl<'a, M: PlanModel> BackPlanner<'a, M> {
    /// Every applicable candidate that covers a needed slot, best first.
    fn rank_candidates(&self, chain: &Chain<M::Component>) -> (list: Vec<(usize, Candidate)>)
        requires
            has_summaries(*self.domain),
            chain_fits(*self.domain, chain.view()),
        ensures
            list@ == ranked(*self.domain, chain.view(), self.domain.tasks@.len()),
            list_ok(*self.domain, list@),
    {
        let mut list: Vec<(usize, Candidate)> = Vec::new();
        for i in 0..self.domain.tasks.len()
            invariant
                has_summaries(*self.domain),
                chain_fits(*self.domain, chain.view()),
                list@ == ranked(*self.domain, chain.view(), i as nat),
                list_ok(*self.domain, list@),
        {
            assert(self.domain.tasks@[i as int].wf(self.domain.tasks@.len(), self.domain.slots()));
            match &self.domain.tasks[i] {
                Task::Primitive(p) => {
                    if p.preconditions_met(&chain.state) {
                        let score: usize = count_listed(&p.guaranteed_slot_list, &chain.needed);
                        proof {
                            lemma_offered_ok(
                                *self.domain,
                                list@,
                                score as nat,
                                Candidate::Primitive(i),
                            );
                        }
                        offer(&mut list, score, Candidate::Primitive(i));
                    }
                },
                Task::Compound(c) => {
                    if self.domain.summaries[i].terminating {
                        let ghost before = list@;
                        for k in 0..c.methods.len()
                            invariant
                                has_summaries(*self.domain),
                                chain_fits(*self.domain, chain.view()),
                                i < self.domain.tasks@.len(),
                                self.domain.tasks@[i as int] == Task::<M>::Compound(*c),
                                c.wf(self.domain.tasks@.len(), self.domain.slots()),
                                list@ == ranked_branches(*c, i, chain.view(), before, k as nat),
                                list_ok(*self.domain, list@),
                        {
                            let m = &c.methods[k];
                            assert(c.methods@[k as int].wf(
                                self.domain.tasks@.len(),
                                self.domain.slots(),
                            ));
                            if crate::model::evaluate_all(&m.preconditions, &chain.state) {
                                let score: usize = count_covered(
                                    &m.guaranteed_writes,
                                    &chain.needed,
                                );
                                proof {
                                    lemma_offered_ok(
                                        *self.domain,
                                        list@,
                                        score as nat,
                                        Candidate::Compound(i, k),
                                    );
                                }
                                offer(&mut list, score, Candidate::Compound(i, k));
                            }
                        }
                    }
                },
                Task::Goal(_) => {},
            }
        }
        list
    }

    /// Plans from `initial_state` toward the effects of the goal that was
    /// recorded from the function with identity `goal`; `name` stands in the
    /// error where there is none. The state is only read.
    pub fn plan(
        &self,
        goal: u64,
        name: &str,
        initial_state: &PlanState<M::Component>,
    ) -> (found: HtnResult<Plan>)
        requires
            self.domain.wf(),
            self.domain.summarized(),
            initial_state@.len() == self.domain.slots(),
        ensures
            match goal_of(*self.domain, goal) {
                None => found matches Err(HtnError::UnregisteredTask { name: n }) && n@ == name@,
                Some(effects) => match goal_steps(
                    *self.domain,
                    effects,
                    initial_state@,
                    self.budget as nat,
                ) {
                    Some(steps) => found matches Ok(plan) && compiles(
                        *self.domain,
                        plan,
                        finished(steps),
                    ),
                    None => found matches Err(HtnError::NoPlan),
                },
            },
    {
        let goal_task = match self.domain.goal(goal) {
            Some(g) => g,
            None => {
                return Err(HtnError::UnregisteredTask { name: name.to_owned() });
            },
        };
        if goal_task.effects.len() == 0 {
            return Err(HtnError::NoPlan);
        }
        let written: Vec<usize> = goal_task.write_slots();
        let n: usize = initial_state.len();
        let mut needed: Vec<bool> = Vec::new();
        for i in 0..n
            invariant
                needed@ == Seq::new(i as nat, |k: int| written@.contains(k as usize)),
        {
            needed.push(has_index(&written, i));
            assert(needed@ =~= Seq::new((i + 1) as nat, |k: int| written@.contains(k as usize)));
        }
        let mut chain = Chain {
            state: initial_state.duplicate(),
            needed,
            steps: Vec::new(),
        };
        let ghost start = chain_start(*self.domain, writes_of(goal_task.effects@), initial_state@);
        assert(chain.view().needed =~= start.needed);
        assert(chain.view().steps =~= start.steps);
        assert(chain.view() == start);
        let mut budget: usize = self.budget;
        while any_needed(&chain.needed)
            invariant
                has_summaries(*self.domain),
                self.domain.summarized(),
                chain_fits(*self.domain, chain.view()),
                goal_of(*self.domain, goal) == Some(goal_task.effects@),
                goal_task.effects@.len() > 0,
                start == chain_start(
                    *self.domain,
                    writes_of(goal_task.effects@),
                    initial_state@,
                ),
                chained(*self.domain, start, self.budget as nat) == chained(
                    *self.domain,
                    chain.view(),
                    budget as nat,
                ),
            decreases budget,
        {
            if budget == 0 {
                return Err(HtnError::NoPlan);
            }
            let ghost v = chain.view();
            let before: usize = budget;
            let list = self.rank_candidates(&chain);
            proof {
                lemma_ranked_cover(*self.domain, v, self.domain.tasks@.len());
            }
            let mut picked: bool = false;
            let mut k: usize = 0;
            while k < list.len() && !picked
                invariant
                    has_summaries(*self.domain),
                    self.domain.summarized(),
                    list_ok(*self.domain, list@),
                    all_cover(*self.domain, v, list@),
                    k <= list@.len(),
                    picked ==> budget < before,
                    chain_fits(*self.domain, v),
                    chain_fits(*self.domain, chain.view()),
                    budget <= before,
                    !picked ==> chain.view() == v && first_expansion(
                        *self.domain,
                        list@,
                        0,
                        v,
                        before as nat,
                    ) == first_expansion(*self.domain, list@, k as nat, v, budget as nat),
                    picked ==> first_expansion(*self.domain, list@, 0, v, before as nat) == (
                    Expansion { at: Some(chain.view()), left: budget as nat }),
                decreases list@.len() - k,
            {
                let snapshot = chain.state.duplicate();
                let needed_before = copy_flags(&chain.needed);
                let steps_before = copy_indices(&chain.steps);
                proof {
                    lemma_expanded_carries_on(*self.domain, list@[k as int].1, v, budget as nat);
                    assert(chain.needed.len() <= usize::MAX);
                    if expanded(*self.domain, list@[k as int].1, v, budget as nat).at is Some {
                        lemma_progress(*self.domain, list@[k as int].1, v, budget as nat);
                    }
                }
                if self.expand(&list[k].1, &mut chain, &mut budget) {
                    picked = true;
                } else {
                    chain = Chain {
                        state: snapshot,
                        needed: needed_before,
                        steps: steps_before,
                    };
                }
                k = k + 1;
            }
            if !picked {
                return Err(HtnError::NoPlan);
            }
        }
        Ok(materialize(self.domain, &chain.steps, Vec::new(), PlanStatus::Complete, None))
    }
}

/// The effects of the goal that was recorded from the function with this
/// identity.
pub open spec fn goal_of<M: PlanModel>(d: HtnDomain<M>, key: u64) -> Option<
    Seq<Effect<M>>,
> {
    match d.index_of_key(key) {
        Some(i) => match d.tasks@[i as int] {
            Task::Goal(g) => Some(g.effects@),
            _ => None,
        },
        None => None,
    }
}

/// The steps that planning toward a goal finds; none where the goal has no
/// effects.
pub open spec fn goal_steps<M: PlanModel>(
    d: HtnDomain<M>,
    effects: Seq<Effect<M>>,
    s: ModelState<M>,
    budget: nat,
) -> Option<Seq<usize>> {
    if effects.len() == 0 {
        None
    } else {
        chained(d, chain_start(d, writes_of(effects), s), budget)
    }
}

fn has_index(list: &Vec<usize>, i: usize) -> (b: bool)
    ensures
        b == list@.contains(i),
{
    for k in 0..list.len()
        invariant
            forall|j: int| 0 <= j < k ==> (#[trigger] list@[j]) != i,
    {
        if list[k] == i {
            return true;
        }
    }
    false
}

fn any_needed(needed: &Vec<bool>) -> (b: bool)
    ensures
        b == needed@.contains(true),
{
    for k in 0..needed.len()
        invariant
            forall|j: int| 0 <= j < k ==> !(#[trigger] needed@[j]),
    {
        if needed[k] {
            assert(needed@[k as int] == true);
            return true;
        }
    }
    false
}

/// What holds of a point that an expansion reaches: it went on from the steps it
/// started with, used a unit of budget for each step, and needs no more than
/// before; without a step it is where it started.
spec fn carried_on<C>(v: ChainView<C>, budget: nat, r: Expansion<C>) -> bool {
    &&& r.left <= budget
    &&& r.at matches Some(next) ==> {
        &&& next.needed.len() == v.needed.len()
        &&& forall|f: int| 0 <= f < v.needed.len() && #[trigger] next.needed[f] ==> v.needed[f]
        &&& next.steps.len() - v.steps.len() == budget - r.left
        &&& r.left == budget ==> next == v
    }
}

proof fn lemma_member_carries_on<M: PlanModel>(
    d: HtnDomain<M>,
    sub: usize,
    v: ChainView<M::Component>,
    budget: nat,
    depth: nat,
)
    ensures
        carried_on(v, budget, expanded_member(d, sub, v, budget, depth)),
    decreases MAX_EXPANSION_DEPTH + 1 - depth, 0nat, 0int,
{
    if let Task::Compound(inner) = d.tasks@[sub as int] {
        if depth < MAX_EXPANSION_DEPTH {
            if let Some((_, choice)) = nested_choice(
                inner,
                v.state,
                v.needed,
                inner.methods@.len(),
            ) {
                lemma_members_carry_on(
                    d,
                    inner.methods@[choice as int],
                    0,
                    v,
                    budget,
                    depth + 1,
                );
            }
        }
    }
}

proof fn lemma_members_carry_on<M: PlanModel>(
    d: HtnDomain<M>,
    m: Method<M>,
    k: nat,
    v: ChainView<M::Component>,
    budget: nat,
    depth: nat,
)
    ensures
        carried_on(v, budget, expanded_members(d, m, k, v, budget, depth)),
    decreases MAX_EXPANSION_DEPTH + 1 - depth, 1nat, m.run_order().len() - k,
{
    if k < m.run_order().len() {
        let sub = m.run_order()[k as int];
        lemma_member_carries_on(d, sub, v, budget, depth);
        let r = expanded_member(d, sub, v, budget, depth);
        if let Some(next) = r.at {
            lemma_members_carry_on(d, m, k + 1, next, r.left, depth);
        }
    }
}

/// An expansion carries on from where it starts.
proof fn lemma_expanded_carries_on<M: PlanModel>(
    d: HtnDomain<M>,
    candidate: Candidate,
    v: ChainView<M::Component>,
    budget: nat,
)
    ensures
        carried_on(v, budget, expanded(d, candidate, v, budget)),
{
    if let Candidate::Compound(i, m) = candidate {
        lemma_members_carry_on(
            d,
            d.tasks@[i as int]->Compound_0.methods@[m as int],
            0,
            v,
            budget,
            0,
        );
    }
}

/// Expanding a task clears each need that its every refinement writes.
proof fn lemma_member_covers<M: PlanModel>(
    d: HtnDomain<M>,
    sub: usize,
    v: ChainView<M::Component>,
    budget: nat,
    depth: nat,
    f: int,
    h: nat,
)
    requires
        d.wf(),
        sub < d.tasks@.len(),
        v.needed.len() == d.slots(),
        0 <= f < d.slots() <= usize::MAX,
        stage(
            network(d),
            ClosureRule::EveryMethodSome,
            |u: int| network(d)[u].sure_writes.contains(f),
            sub as int,
            h,
        ),
        expanded_member(d, sub, v, budget, depth).at is Some,
    ensures
        !expanded_member(d, sub, v, budget, depth).at->Some_0.needed[f],
    decreases h, 0int,
{
    let net = network(d);
    let base = |u: int| network(d)[u].sure_writes.contains(f);
    assert(d.tasks@[sub as int].wf(d.tasks@.len(), d.slots()));
    match d.tasks@[sub as int] {
        Task::Primitive(p) => {
            assert(base(sub as int));
            lemma_some_writes(p.effects@, f);
        },
        Task::Compound(inner) => {
            let below = |u: int|
                stage(net, ClosureRule::EveryMethodSome, base, u, (h - 1) as nat);
            assert(rule_holds(ClosureRule::EveryMethodSome, net[sub as int], below));
            lemma_nested_choice(inner, v.state, v.needed, inner.methods@.len());
            let choice = nested_choice(
                inner,
                v.state,
                v.needed,
                inner.methods@.len(),
            )->Some_0.1 as int;
            let m = inner.methods@[choice];
            assert(net[sub as int].methods[choice] == method_shape(m));
            assert(some_member(net[sub as int].methods[choice], below));
            let k = choose|k: int|
                0 <= k < m.subtasks@.len() && below(
                    #[trigger] net[sub as int].methods[choice].members[k] as int,
                );
            assert(m.wf(d.tasks@.len(), d.slots()));
            let u = m.subtasks@[k] as usize;
            assert(below(u as int));
            let at = lemma_runs_member(m, k);
            lemma_run_order_known(d, m);
            lemma_members_cover(d, m, 0, v, budget, depth + 1, f, (h - 1) as nat, at as nat);
        },
        Task::Goal(_) => {},
    }
}

proof fn lemma_members_cover<M: PlanModel>(
    d: HtnDomain<M>,
    m: Method<M>,
    k: nat,
    v: ChainView<M::Component>,
    budget: nat,
    depth: nat,
    f: int,
    h: nat,
    at: nat,
)
    requires
        d.wf(),
        m.wf(d.tasks@.len(), d.slots()),
        k <= at < m.run_order().len(),
        v.needed.len() == d.slots(),
        0 <= f < d.slots() <= usize::MAX,
        forall|i: int| 0 <= i < m.run_order().len() ==> (#[trigger] m.run_order()[i]) < d.tasks@.len(),
        stage(
            network(d),
            ClosureRule::EveryMethodSome,
            |u: int| network(d)[u].sure_writes.contains(f),
            m.run_order()[at as int] as int,
            h,
        ),
        expanded_members(d, m, k, v, budget, depth).at is Some,
    ensures
        !expanded_members(d, m, k, v, budget, depth).at->Some_0.needed[f],
    decreases h, m.run_order().len() - k + 1,
{
    let sub = m.run_order()[k as int];
    lemma_member_carries_on(d, sub, v, budget, depth);
    let r = expanded_member(d, sub, v, budget, depth);
    let next = r.at->Some_0;
    if k == at {
        lemma_member_covers(d, sub, v, budget, depth, f, h);
        lemma_members_carry_on(d, m, k + 1, next, r.left, depth);
    } else {
        lemma_members_cover(d, m, k + 1, next, r.left, depth, f, h, at);
    }
}

proof fn lemma_nested_choice<M: PlanModel>(
    c: CompoundTask<M>,
    s: ModelState<M>,
    needed: Seq<bool>,
    n: nat,
)
    requires
        n <= c.methods@.len(),
    ensures
        nested_choice(c, s, needed, n) matches Some((_, i)) ==> i < n,
    decreases n,
{
    if n > 0 {
        lemma_nested_choice(c, s, needed, (n - 1) as nat);
    }
}

/// Every member runs somewhere in the first order.
proof fn lemma_runs_member<M: PlanModel>(m: Method<M>, k: int) -> (at: int)
    requires
        m.order_wf(),
        0 <= k < m.subtasks@.len(),
    ensures
        0 <= at < m.run_order().len(),
        m.run_order()[at] == m.subtasks@[k] as usize,
{
    match m.order {
        SubtaskOrder::Total => k,
        SubtaskOrder::Partial { preds, orders, first } => {
            lemma_partial_work(m, 0);
            lemma_work_members(m, 0);
            let work = method_work(m, 0);
            let step = ResumeStep::Task(m.subtasks@[k]);
            let at = work.index_of(step);
            assert(work.contains(step));
            assert(work[at] == ResumeStep::Task(m.subtasks@[first@[at] as int]));
            at
        },
    }
}

proof fn lemma_some_writes<M: PlanModel>(es: Seq<Effect<M>>, f: int)
    requires
        0 <= f <= usize::MAX,
        some_writes(es, f),
    ensures
        writes_of(es).contains(f as usize),
    decreases es.len(),
{
    if es.len() > 0 {
        let front = writes_of(es.drop_last());
        let last = es.last().writes@;
        let i = choose|i: int| 0 <= i < es.len() && (#[trigger] es[i]).writes@.contains(f as usize);
        if i < es.len() - 1 {
            assert(es.drop_last()[i] == es[i]);
            lemma_some_writes(es.drop_last(), f);
            let j = front.index_of(f as usize);
            assert(writes_of(es)[j] == f as usize);
        } else {
            let j = last.index_of(f as usize);
            assert(writes_of(es)[front.len() + j] == f as usize);
        }
    }
}

/// Whether a candidate that is a branch guarantees to write a needed slot.
spec fn covers<M: PlanModel>(d: HtnDomain<M>, v: ChainView<M::Component>, c: Candidate) -> bool {
    match c {
        Candidate::Primitive(_) => true,
        Candidate::Compound(i, m) => exists|f: int|
            0 <= f < v.needed.len() && v.needed[f]
                && #[trigger] d.tasks@[i as int]->Compound_0.methods@[m as int].guaranteed_writes.has(
                f,
            ),
    }
}

spec fn all_cover<M: PlanModel>(
    d: HtnDomain<M>,
    v: ChainView<M::Component>,
    list: Seq<(usize, Candidate)>,
) -> bool {
    forall|i: int| 0 <= i < list.len() ==> covers(d, v, (#[trigger] list[i]).1)
}

proof fn lemma_covered_witness(set: FieldSet, needed: Seq<bool>, k: nat) -> (f: int)
    requires
        covered_needs(set, needed, k) > 0,
    ensures
        0 <= f < k,
        set.has(f),
        needed[f],
    decreases k,
{
    if set.has(k - 1) && needed[k - 1] {
        k - 1
    } else {
        lemma_covered_witness(set, needed, (k - 1) as nat)
    }
}

proof fn lemma_offered_covers<M: PlanModel>(
    d: HtnDomain<M>,
    v: ChainView<M::Component>,
    list: Seq<(usize, Candidate)>,
    score: nat,
    candidate: Candidate,
)
    requires
        all_cover(d, v, list),
        score > 0 ==> covers(d, v, candidate),
    ensures
        all_cover(d, v, offered(list, score, candidate)),
{
    if score > 0 {
        lemma_place_bound(list, score as usize, 0);
        let at = place(list, score as usize, 0) as int;
        let more = offered(list, score, candidate);
        assert forall|i: int| 0 <= i < more.len() implies covers(d, v, (#[trigger] more[i]).1) by {
            if i < at {
                assert(more[i] == list[i]);
            } else if i > at {
                assert(more[i] == list[i - 1]);
            }
        }
    }
}

proof fn lemma_branches_cover<M: PlanModel>(
    d: HtnDomain<M>,
    c: CompoundTask<M>,
    task: usize,
    v: ChainView<M::Component>,
    list: Seq<(usize, Candidate)>,
    n: nat,
)
    requires
        d.tasks@[task as int] == Task::Compound(c),
        n <= c.methods@.len() <= usize::MAX,
        all_cover(d, v, list),
    ensures
        all_cover(d, v, ranked_branches(c, task, v, list, n)),
    decreases n,
{
    if n > 0 {
        lemma_branches_cover(d, c, task, v, list, (n - 1) as nat);
        let m = c.methods@[n - 1];
        let score = covered_needs(m.guaranteed_writes, v.needed, v.needed.len());
        if score > 0 {
            let f = lemma_covered_witness(m.guaranteed_writes, v.needed, v.needed.len());
            assert(d.tasks@[task as int]->Compound_0.methods@[(n - 1) as usize as int].guaranteed_writes.has(f));
        }
        lemma_offered_covers(
            d,
            v,
            ranked_branches(c, task, v, list, (n - 1) as nat),
            score,
            Candidate::Compound(task, (n - 1) as usize),
        );
    }
}

/// Every candidate covers a needed slot.
proof fn lemma_ranked_cover<M: PlanModel>(d: HtnDomain<M>, v: ChainView<M::Component>, n: nat)
    requires
        d.wf(),
        n <= d.tasks@.len(),
    ensures
        all_cover(d, v, ranked(d, v, n)),
    decreases n,
{
    if n > 0 {
        lemma_ranked_cover(d, v, (n - 1) as nat);
        let before = ranked(d, v, (n - 1) as nat);
        assert(d.tasks@[n - 1].wf(d.tasks@.len(), d.slots()));
        match d.tasks@[n - 1] {
            Task::Primitive(p) => {
                lemma_offered_covers(
                    d,
                    v,
                    before,
                    listed_needs(p.guaranteed_slot_list@, v.needed, v.needed.len()),
                    Candidate::Primitive((n - 1) as usize),
                );
            },
            Task::Compound(c) => {
                lemma_branches_cover(d, c, (n - 1) as usize, v, before, c.methods@.len());
            },
            Task::Goal(_) => {},
        }
    }
}

/// Expanding a candidate that covers a needed slot adds a step.
proof fn lemma_progress<M: PlanModel>(
    d: HtnDomain<M>,
    candidate: Candidate,
    v: ChainView<M::Component>,
    budget: nat,
)
    requires
        d.wf(),
        d.summarized(),
        candidate_ok(d, candidate),
        covers(d, v, candidate),
        v.needed.len() == d.slots() <= usize::MAX,
        expanded(d, candidate, v, budget).at is Some,
    ensures
        expanded(d, candidate, v, budget).left < budget,
{
    if let Candidate::Compound(i, mi) = candidate {
        let c = d.tasks@[i as int]->Compound_0;
        let m = c.methods@[mi as int];
        assert(d.tasks@[i as int].wf(d.tasks@.len(), d.slots()));
        assert(m.wf(d.tasks@.len(), d.slots()));
        let f = choose|f: int|
            0 <= f < v.needed.len() && v.needed[f] && #[trigger] m.guaranteed_writes.has(f);
        let net = network(d);
        assert(method_summarized(m, net, d.slots(), cost_bounds(d)));
        let must = |u: int| must_write(net, f, u);
        assert(some_member(method_shape(m), must));
        let k = choose|k: int|
            0 <= k < m.subtasks@.len() && must(#[trigger] method_shape(m).members[k] as int);
        let u = m.subtasks@[k];
        assert(must(u as int));
        let base = |u: int| net[u].sure_writes.contains(f);
        let h = choose|h: nat| stage(net, ClosureRule::EveryMethodSome, base, u as int, h);
        assert(stage(net, ClosureRule::EveryMethodSome, base, u as int, h));
        let at = lemma_runs_member(m, k);
        lemma_run_order_known(d, m);
        lemma_members_cover(d, m, 0, v, budget, 0, f, h, at as nat);
        lemma_members_carry_on(d, m, 0, v, budget, 0);
    }
}

/// Whether a step of a plan writes slot `f`.
pub open spec fn some_step_writes<M: PlanModel>(d: HtnDomain<M>, steps: Seq<usize>, f: usize) -> bool {
    exists|k: int|
        0 <= k < steps.len() && writes_of(
            d.tasks@[#[trigger] steps[k] as int]->Primitive_0.effects@,
        ).contains(f)
}

/// Whether a point was reached from the state `s` by steps that write what is
/// needed no more.
spec fn chain_sound<M: PlanModel>(
    d: HtnDomain<M>,
    s: ModelState<M>,
    needed: Seq<bool>,
    v: ChainView<M::Component>,
) -> bool {
    &&& executable(d, s, v.steps)
    &&& plan_state(d, s, v.steps, v.steps.len()) == v.state
    &&& v.needed.len() == needed.len()
    &&& forall|f: int|
        0 <= f < needed.len() && needed[f] && !(#[trigger] v.needed[f]) ==> some_step_writes(
            d,
            v.steps,
            f as usize,
        )
}

proof fn lemma_step_sound<M: PlanModel>(
    d: HtnDomain<M>,
    s: ModelState<M>,
    needed: Seq<bool>,
    task: usize,
    v: ChainView<M::Component>,
    budget: nat,
)
    requires
        task < d.tasks@.len(),
        chain_sound(d, s, needed, v),
        committed_step(d, task, v, budget).at is Some,
    ensures
        chain_sound(d, s, needed, committed_step(d, task, v, budget).at->Some_0),
{
    let next = committed_step(d, task, v, budget).at->Some_0;
    assert forall|k: int| 0 <= k < next.steps.len() implies {
        &&& (#[trigger] next.steps[k]) < d.tasks@.len()
        &&& d.tasks@[next.steps[k] as int] is Primitive
        &&& d.tasks@[next.steps[k] as int]->Primitive_0.ready(
            plan_state(d, s, next.steps, k as nat),
        )
    } by {
        lemma_plan_prefix(d, s, v.steps, next.steps, k as nat);
        if k < v.steps.len() {
            assert(next.steps[k] == v.steps[k]);
        }
    }
    lemma_plan_prefix(d, s, v.steps, next.steps, v.steps.len());
    assert forall|f: int|
        0 <= f < needed.len() && needed[f] && !(#[trigger] next.needed[f]) implies some_step_writes(
        d,
        next.steps,
        f as usize,
    ) by {
        if v.needed[f] {
            assert(next.steps[v.steps.len() as int] == task);
        } else {
            let k = choose|k: int|
                0 <= k < v.steps.len() && writes_of(
                    d.tasks@[#[trigger] v.steps[k] as int]->Primitive_0.effects@,
                ).contains(f as usize);
            assert(next.steps[k] == v.steps[k]);
        }
    }
}

proof fn lemma_member_sound<M: PlanModel>(
    d: HtnDomain<M>,
    s: ModelState<M>,
    needed: Seq<bool>,
    sub: usize,
    v: ChainView<M::Component>,
    budget: nat,
    depth: nat,
)
    requires
        d.wf(),
        sub < d.tasks@.len(),
        chain_sound(d, s, needed, v),
        expanded_member(d, sub, v, budget, depth).at is Some,
    ensures
        chain_sound(d, s, needed, expanded_member(d, sub, v, budget, depth).at->Some_0),
    decreases MAX_EXPANSION_DEPTH + 1 - depth, 0nat, 0int,
{
    match d.tasks@[sub as int] {
        Task::Primitive(_) => {
            lemma_step_sound(d, s, needed, sub, v, budget);
        },
        Task::Compound(inner) => {
            lemma_nested_choice(inner, v.state, v.needed, inner.methods@.len());
            let choice = nested_choice(
                inner,
                v.state,
                v.needed,
                inner.methods@.len(),
            )->Some_0.1 as int;
            assert(d.tasks@[sub as int].wf(d.tasks@.len(), d.slots()));
            assert(inner.methods@[choice].wf(d.tasks@.len(), d.slots()));
            lemma_members_sound(d, s, needed, inner.methods@[choice], 0, v, budget, depth + 1);
        },
        Task::Goal(_) => {},
    }
}

proof fn lemma_members_sound<M: PlanModel>(
    d: HtnDomain<M>,
    s: ModelState<M>,
    needed: Seq<bool>,
    m: Method<M>,
    k: nat,
    v: ChainView<M::Component>,
    budget: nat,
    depth: nat,
)
    requires
        d.wf(),
        m.wf(d.tasks@.len(), d.slots()),
        chain_sound(d, s, needed, v),
        expanded_members(d, m, k, v, budget, depth).at is Some,
    ensures
        chain_sound(d, s, needed, expanded_members(d, m, k, v, budget, depth).at->Some_0),
    decreases MAX_EXPANSION_DEPTH + 1 - depth, 1nat, m.run_order().len() - k,
{
    if k < m.run_order().len() {
        lemma_run_order_known(d, m);
        let sub = m.run_order()[k as int];
        let r = expanded_member(d, sub, v, budget, depth);
        lemma_member_sound(d, s, needed, sub, v, budget, depth);
        lemma_members_sound(d, s, needed, m, k + 1, r.at->Some_0, r.left, depth);
    }
}

proof fn lemma_first_sound<M: PlanModel>(
    d: HtnDomain<M>,
    s: ModelState<M>,
    needed: Seq<bool>,
    list: Seq<(usize, Candidate)>,
    k: nat,
    v: ChainView<M::Component>,
    budget: nat,
)
    requires
        d.wf(),
        list_ok(d, list),
        chain_sound(d, s, needed, v),
    ensures
        first_expansion(d, list, k, v, budget).at matches Some(next) ==> next.steps.len()
            - v.steps.len() <= budget - first_expansion(d, list, k, v, budget).left,
        first_expansion(d, list, k, v, budget).at matches Some(next) ==> chain_sound(
            d,
            s,
            needed,
            next,
        ),
    decreases list.len() - k,
{
    if k < list.len() {
        let c = list[k as int].1;
        assert(candidate_ok(d, c));
        let r = expanded(d, c, v, budget);
        lemma_expanded_carries_on(d, c, v, budget);
        if r.at is Some {
            match c {
                Candidate::Primitive(i) => {
                    lemma_step_sound(d, s, needed, i, v, budget);
                },
                Candidate::Compound(i, m) => {
                    assert(d.tasks@[i as int].wf(d.tasks@.len(), d.slots()));
                    let method = d.tasks@[i as int]->Compound_0.methods@[m as int];
                    assert(method.wf(d.tasks@.len(), d.slots()));
                    lemma_members_sound(d, s, needed, method, 0, v, budget, 0);
                },
            }
        } else {
            lemma_first_sound(d, s, needed, list, k + 1, v, r.left);
        }
    }
}

proof fn lemma_branches_ok<M: PlanModel>(
    d: HtnDomain<M>,
    c: CompoundTask<M>,
    task: usize,
    v: ChainView<M::Component>,
    list: Seq<(usize, Candidate)>,
    n: nat,
)
    requires
        task < d.tasks@.len(),
        d.tasks@[task as int] == Task::Compound(c),
        n <= c.methods@.len() <= u32::MAX,
        list_ok(d, list),
    ensures
        list_ok(d, ranked_branches(c, task, v, list, n)),
    decreases n,
{
    if n > 0 {
        lemma_branches_ok(d, c, task, v, list, (n - 1) as nat);
        let m = c.methods@[n - 1];
        lemma_offered_ok(
            d,
            ranked_branches(c, task, v, list, (n - 1) as nat),
            covered_needs(m.guaranteed_writes, v.needed, v.needed.len()),
            Candidate::Compound(task, (n - 1) as usize),
        );
    }
}

proof fn lemma_ranked_ok<M: PlanModel>(d: HtnDomain<M>, v: ChainView<M::Component>, n: nat)
    requires
        d.wf(),
        n <= d.tasks@.len(),
    ensures
        list_ok(d, ranked(d, v, n)),
    decreases n,
{
    if n > 0 {
        lemma_ranked_ok(d, v, (n - 1) as nat);
        let before = ranked(d, v, (n - 1) as nat);
        assert(d.tasks@[n - 1].wf(d.tasks@.len(), d.slots()));
        match d.tasks@[n - 1] {
            Task::Primitive(p) => {
                lemma_offered_ok(
                    d,
                    before,
                    listed_needs(p.guaranteed_slot_list@, v.needed, v.needed.len()),
                    Candidate::Primitive((n - 1) as usize),
                );
            },
            Task::Compound(c) => {
                lemma_branches_ok(d, c, (n - 1) as usize, v, before, c.methods@.len());
            },
            Task::Goal(_) => {},
        }
    }
}

proof fn lemma_chained_sound<M: PlanModel>(
    d: HtnDomain<M>,
    s: ModelState<M>,
    needed: Seq<bool>,
    v: ChainView<M::Component>,
    budget: nat,
)
    requires
        d.wf(),
        chain_sound(d, s, needed, v),
        chained(d, v, budget) is Some,
    ensures
        executable(d, s, chained(d, v, budget)->Some_0),
        chained(d, v, budget)->Some_0.len() <= v.steps.len() + budget,
        forall|f: int|
            0 <= f < needed.len() && #[trigger] needed[f] ==> some_step_writes(
                d,
                chained(d, v, budget)->Some_0,
                f as usize,
            ),
    decreases budget,
{
    if v.needed.contains(true) {
        let list = ranked(d, v, d.tasks@.len());
        lemma_ranked_ok(d, v, d.tasks@.len());
        lemma_first_sound(d, s, needed, list, 0, v, budget);
        let r = first_expansion(d, list, 0, v, budget);
        lemma_chained_sound(d, s, needed, r.at->Some_0, r.left);
    } else {
        assert forall|f: int| 0 <= f < needed.len() && #[trigger] needed[f] implies some_step_writes(
            d,
            v.steps,
            f as usize,
        ) by {
            if v.needed[f] {
                assert(v.needed.contains(true));
            }
        }
    }
}

/// A plan toward a goal can be executed step by step from the starting state,
/// holds no more steps than the budget, and writes every slot that the goal's
/// effects write.
pub proof fn back_plans_reach_the_goal<M: PlanModel>(
    d: HtnDomain<M>,
    effects: Seq<Effect<M>>,
    s: ModelState<M>,
    budget: nat,
    f: usize,
)
    requires
        d.wf(),
        goal_steps(d, effects, s, budget) is Some,
        f < d.slots(),
        writes_of(effects).contains(f),
    ensures
        executable(d, s, goal_steps(d, effects, s, budget)->Some_0),
        goal_steps(d, effects, s, budget)->Some_0.len() <= budget,
        some_step_writes(d, goal_steps(d, effects, s, budget)->Some_0, f),
{
    let start = chain_start(d, writes_of(effects), s);
    assert(chain_sound(d, s, start.needed, start));
    lemma_chained_sound(d, s, start.needed, start, budget);
    assert(start.needed[f as int]);
}

/// Whether one candidate comes before another: by task index, then branch index.
pub open spec fn earlier(a: Candidate, b: Candidate) -> bool {
    ||| task_of(a) < task_of(b)
    ||| task_of(a) == task_of(b) && branch_of(a) < branch_of(b)
}

/// A candidate's task.
pub open spec fn task_of(c: Candidate) -> usize {
    match c {
        Candidate::Primitive(i) => i,
        Candidate::Compound(i, _) => i,
    }
}

/// A candidate's branch.
pub open spec fn branch_of(c: Candidate) -> usize {
    match c {
        Candidate::Primitive(_) => 0,
        Candidate::Compound(_, m) => m,
    }
}

/// Whether the candidates of a list come in order: those that cover more first,
/// and among equals the earlier ones.
pub open spec fn best_first(list: Seq<(usize, Candidate)>) -> bool {
    forall|j: int, k: int|
        0 <= j < k < list.len() ==> (#[trigger] list[j]).0 > (#[trigger] list[k]).0 || (list[j].0
            == list[k].0 && earlier(list[j].1, list[k].1))
}

/// Whether every listed candidate comes before `c`.
spec fn all_earlier(list: Seq<(usize, Candidate)>, c: Candidate) -> bool {
    forall|i: int| 0 <= i < list.len() ==> earlier((#[trigger] list[i]).1, c)
}

proof fn lemma_offered_sorted(
    list: Seq<(usize, Candidate)>,
    score: nat,
    candidate: Candidate,
    next: Candidate,
)
    requires
        best_first(list),
        all_earlier(list, candidate),
        score <= usize::MAX,
        earlier(candidate, next),
    ensures
        best_first(offered(list, score, candidate)),
        all_earlier(offered(list, score, candidate), next),
{
    if score > 0 {
        lemma_place_bound(list, score as usize, 0);
        let at = place(list, score as usize, 0) as int;
        let more = offered(list, score, candidate);
        assert forall|i: int| 0 <= i < more.len() implies #[trigger] more[i] == (if i < at {
            list[i]
        } else if i == at {
            (score as usize, candidate)
        } else {
            list[i - 1]
        }) by {}
        assert forall|j: int, k: int| 0 <= j < k < more.len() implies (#[trigger] more[j]).0 > (
        #[trigger] more[k]).0 || (more[j].0 == more[k].0 && earlier(more[j].1, more[k].1)) by {
            if at < list.len() && k > at {
                assert(list[at].0 < score);
                if k - 1 > at {
                    assert(list[at].0 >= list[k - 1].0);
                }
            }
        }
    } else {
        assert forall|i: int| 0 <= i < list.len() implies earlier(
            (#[trigger] list[i]).1,
            next,
        ) by {
            assert(earlier(list[i].1, candidate));
        }
    }
}

proof fn lemma_all_earlier(list: Seq<(usize, Candidate)>, a: Candidate, b: Candidate)
    requires
        all_earlier(list, a),
        earlier(a, b),
    ensures
        all_earlier(list, b),
{
    assert forall|i: int| 0 <= i < list.len() implies earlier((#[trigger] list[i]).1, b) by {
        assert(earlier(list[i].1, a));
    }
}

proof fn lemma_covered_at_most(set: FieldSet, needed: Seq<bool>, k: nat)
    ensures
        covered_needs(set, needed, k) <= k,
    decreases k,
{
    if k > 0 {
        lemma_covered_at_most(set, needed, (k - 1) as nat);
    }
}

proof fn lemma_listed_at_most(slots: Seq<usize>, needed: Seq<bool>, k: nat)
    ensures
        listed_needs(slots, needed, k) <= k,
    decreases k,
{
    if k > 0 {
        lemma_listed_at_most(slots, needed, (k - 1) as nat);
    }
}

proof fn lemma_branches_sorted<M: PlanModel>(
    c: CompoundTask<M>,
    task: usize,
    v: ChainView<M::Component>,
    list: Seq<(usize, Candidate)>,
    n: nat,
)
    requires
        best_first(list),
        all_earlier(list, Candidate::Compound(task, 0)),
        n <= c.methods@.len() <= u32::MAX,
        v.needed.len() <= usize::MAX,
    ensures
        best_first(ranked_branches(c, task, v, list, n)),
        all_earlier(
            ranked_branches(c, task, v, list, n),
            Candidate::Compound(task, n as usize),
        ),
    decreases n,
{
    if n > 0 {
        lemma_branches_sorted(c, task, v, list, (n - 1) as nat);
        let m = c.methods@[n - 1];
        let before = ranked_branches(c, task, v, list, (n - 1) as nat);
        let score = covered_needs(m.guaranteed_writes, v.needed, v.needed.len());
        lemma_covered_at_most(m.guaranteed_writes, v.needed, v.needed.len());
        let now = Candidate::Compound(task, (n - 1) as usize);
        let next = Candidate::Compound(task, n as usize);
        lemma_offered_sorted(before, score, now, next);
        lemma_all_earlier(before, now, next);
    }
}

/// The candidates are tried best first: those that cover more of what is needed
/// come first, and among equals those with the lower task index, then the lower
/// branch index.
pub proof fn candidates_come_best_first<M: PlanModel>(
    d: HtnDomain<M>,
    v: ChainView<M::Component>,
    n: nat,
)
    requires
        d.wf(),
        n <= d.tasks@.len(),
        v.needed.len() <= usize::MAX,
    ensures
        best_first(ranked(d, v, n)),
        forall|k: int| 0 <= k < ranked(d, v, n).len() ==> task_of((#[trigger] ranked(d, v, n)[k]).1) < n,
    decreases n,
{
    if n > 0 {
        candidates_come_best_first(d, v, (n - 1) as nat);
        let task = (n - 1) as usize;
        let before = ranked(d, v, (n - 1) as nat);
        let next = Candidate::Compound(n as usize, 0);
        assert(d.tasks@[n - 1].wf(d.tasks@.len(), d.slots()));
        match d.tasks@[n - 1] {
            Task::Primitive(p) => {
                let slots = p.guaranteed_slot_list@;
                let score = listed_needs(slots, v.needed, v.needed.len());
                lemma_listed_at_most(slots, v.needed, v.needed.len());
                lemma_offered_sorted(before, score, Candidate::Primitive(task), next);
            },
            Task::Compound(c) => {
                lemma_branches_sorted(c, task, v, before, c.methods@.len());
                lemma_all_earlier(
                    ranked_branches(c, task, v, before, c.methods@.len()),
                    Candidate::Compound(task, c.methods@.len() as usize),
                    next,
                );
            },
            Task::Goal(_) => {},
        }
        assert forall|k: int| 0 <= k < ranked(d, v, n).len() implies task_of(
            (#[trigger] ranked(d, v, n)[k]).1,
        ) < n by {
            if ranked(d, v, n) == before {
                assert(task_of(before[k].1) < n - 1);
            } else {
                assert(all_earlier(ranked(d, v, n), next));
            }
        }
    }
}

/// How many of the needed slots are written, each slot counted once.
pub open spec fn needs_met(needed: Seq<bool>, written: spec_fn(int) -> bool) -> nat {
    Set::new(|f: int| 0 <= f < needed.len() && needed[f] && written(f)).len()
}

proof fn lemma_needs_met(needed: Seq<bool>, written: spec_fn(int) -> bool, k: nat)
    requires
        k < needed.len(),
    ensures
        Set::new(|f: int| 0 <= f < k && needed[f] && written(f)).finite() ==> {
            let below = Set::new(|f: int| 0 <= f < k && needed[f] && written(f));
            let all = Set::new(|f: int| 0 <= f < k + 1 && needed[f] && written(f));
            &&& all.finite()
            &&& all.len() == below.len() + if needed[k as int] && written(k as int) {
                1nat
            } else {
                0nat
            }
        },
{
    let below = Set::new(|f: int| 0 <= f < k && needed[f] && written(f));
    let all = Set::new(|f: int| 0 <= f < k + 1 && needed[f] && written(f));
    if needed[k as int] && written(k as int) {
        assert(all =~= below.insert(k as int));
    } else {
        assert(all =~= below);
    }
}

proof fn lemma_listed_counts(slots: Seq<usize>, needed: Seq<bool>, k: nat)
    requires
        k <= needed.len(),
    ensures
        ({
            let met = Set::new(|f: int| 0 <= f < k && needed[f] && slots.contains(f as usize));
            met.finite() && met.len() == listed_needs(slots, needed, k)
        }),
    decreases k,
{
    let written = |f: int| slots.contains(f as usize);
    let met = Set::new(|f: int| 0 <= f < k && needed[f] && slots.contains(f as usize));
    assert(met =~= Set::new(|f: int| 0 <= f < k && needed[f] && written(f)));
    if k == 0 {
        assert(met =~= Set::empty());
    } else {
        let j = (k - 1) as nat;
        lemma_listed_counts(slots, needed, j);
        assert(Set::new(|f: int| 0 <= f < j && needed[f] && slots.contains(f as usize))
            =~= Set::new(|f: int| 0 <= f < j && needed[f] && written(f)));
        assert(met =~= Set::new(|f: int| 0 <= f < j + 1 && needed[f] && written(f)));
        lemma_needs_met(needed, written, j);
    }
}

proof fn lemma_covered_counts(set: FieldSet, needed: Seq<bool>, k: nat)
    requires
        k <= needed.len(),
    ensures
        ({
            let met = Set::new(|f: int| 0 <= f < k && needed[f] && set.has(f));
            met.finite() && met.len() == covered_needs(set, needed, k)
        }),
    decreases k,
{
    let written = |f: int| set.has(f);
    let met = Set::new(|f: int| 0 <= f < k && needed[f] && set.has(f));
    assert(met =~= Set::new(|f: int| 0 <= f < k && needed[f] && written(f)));
    if k == 0 {
        assert(met =~= Set::empty());
    } else {
        let j = (k - 1) as nat;
        lemma_covered_counts(set, needed, j);
        assert(Set::new(|f: int| 0 <= f < j && needed[f] && set.has(f)) =~= Set::new(
            |f: int| 0 <= f < j && needed[f] && written(f),
        ));
        assert(met =~= Set::new(|f: int| 0 <= f < j + 1 && needed[f] && written(f)));
        lemma_needs_met(needed, written, j);
    }
}

/// How many needed slots a candidate offers to write: those that the effects of a
/// ready primitive write, or that an applicable branch of a task that terminates
/// is sure to write. What does not apply offers none.
pub open spec fn offers<M: PlanModel>(
    d: HtnDomain<M>,
    v: ChainView<M::Component>,
    candidate: Candidate,
) -> nat {
    match candidate {
        Candidate::Primitive(i) => if i < d.tasks@.len() && (d.tasks@[i as int] matches
            Task::Primitive(p) && p.ready(v.state)) {
            needs_met(
                v.needed,
                |f: int| d.tasks@[i as int]->Primitive_0.guaranteed_slot_list@.contains(f as usize),
            )
        } else {
            0
        },
        Candidate::Compound(i, m) => if i < d.tasks@.len() && d.summaries@[i as int].terminating && (
        d.tasks@[i as int] matches Task::Compound(c) && m < c.methods@.len()
            && c.methods@[m as int].valid(v.state)) {
            needs_met(
                v.needed,
                |f: int|
                    d.tasks@[i as int]->Compound_0.methods@[m as int].guaranteed_writes.has(f),
            )
        } else {
            0
        },
    }
}

proof fn lemma_offered_contains(
    list: Seq<(usize, Candidate)>,
    score: nat,
    candidate: Candidate,
    entry: (usize, Candidate),
)
    ensures
        offered(list, score, candidate).contains(entry) <==> list.contains(entry) || (score > 0
            && entry == (score as usize, candidate)),
{
    if score > 0 {
        lemma_place_bound(list, score as usize, 0);
        let at = place(list, score as usize, 0) as int;
        let more = offered(list, score, candidate);
        assert(more[at] == (score as usize, candidate));
        if list.contains(entry) {
            let i = list.index_of(entry);
            if i < at {
                assert(more[i] == entry);
            } else {
                assert(more[i + 1] == entry);
            }
        }
        if more.contains(entry) {
            let i = more.index_of(entry);
            if i < at {
                assert(list[i] == entry);
            } else if i > at {
                assert(list[i - 1] == entry);
            }
        }
    }
}

proof fn lemma_branches_contain<M: PlanModel>(
    d: HtnDomain<M>,
    c: CompoundTask<M>,
    task: usize,
    v: ChainView<M::Component>,
    list: Seq<(usize, Candidate)>,
    n: nat,
    entry: (usize, Candidate),
)
    requires
        task < d.tasks@.len(),
        d.tasks@[task as int] == Task::Compound(c),
        d.summaries@[task as int].terminating,
        n <= c.methods@.len() <= u32::MAX,
        v.needed.len() <= usize::MAX,
        !list.contains(entry) || task_of(entry.1) != task,
    ensures
        ranked_branches(c, task, v, list, n).contains(entry) <==> list.contains(entry) || (
        entry.1 matches Candidate::Compound(i, m) && i == task && m < n && offers(d, v, entry.1) > 0
            && offers(d, v, entry.1) == entry.0),
    decreases n,
{
    if n > 0 {
        lemma_branches_contain(d, c, task, v, list, (n - 1) as nat, entry);
        let m = c.methods@[n - 1];
        let before = ranked_branches(c, task, v, list, (n - 1) as nat);
        let candidate = Candidate::Compound(task, (n - 1) as usize);
        let score = covered_needs(m.guaranteed_writes, v.needed, v.needed.len());
        lemma_covered_at_most(m.guaranteed_writes, v.needed, v.needed.len());
        lemma_covered_counts(m.guaranteed_writes, v.needed, v.needed.len());
        lemma_offered_contains(before, score, candidate, entry);
        if m.valid(v.state) {
            let written = |f: int|
                d.tasks@[task as int]->Compound_0.methods@[(n - 1) as usize as int].guaranteed_writes.has(
                    f,
                );
            assert(Set::new(|f: int| 0 <= f < v.needed.len() && v.needed[f] && written(f))
                =~= Set::new(
                |f: int| 0 <= f < v.needed.len() && v.needed[f] && m.guaranteed_writes.has(f),
            ));
            assert(offers(d, v, candidate) == score);
        }
    }
}

/// The candidates are exactly what is of use: a candidate is listed, with the
/// number of needed slots that it offers to write, where it offers any, and
/// nothing else is listed.
pub proof fn candidates_are_what_helps<M: PlanModel>(
    d: HtnDomain<M>,
    v: ChainView<M::Component>,
    n: nat,
    entry: (usize, Candidate),
)
    requires
        d.wf(),
        n <= d.tasks@.len(),
        v.needed.len() <= usize::MAX,
    ensures
        ranked(d, v, n).contains(entry) <==> task_of(entry.1) < n && offers(d, v, entry.1) > 0
            && offers(d, v, entry.1) == entry.0,
    decreases n,
{
    if n > 0 {
        candidates_are_what_helps(d, v, (n - 1) as nat, entry);
        let task = (n - 1) as usize;
        let before = ranked(d, v, (n - 1) as nat);
        assert(d.tasks@.len() <= usize::MAX) by {
            assert(d.tasks.len() <= usize::MAX);
        }
        assert(d.tasks@[n - 1].wf(d.tasks@.len(), d.slots()));
        match d.tasks@[n - 1] {
            Task::Primitive(p) => {
                let slots = p.guaranteed_slot_list@;
                let score = listed_needs(slots, v.needed, v.needed.len());
                lemma_listed_at_most(slots, v.needed, v.needed.len());
                lemma_listed_counts(slots, v.needed, v.needed.len());
                lemma_offered_contains(before, score, Candidate::Primitive(task), entry);
                if p.ready(v.state) {
                    let written = |f: int|
                        d.tasks@[task as int]->Primitive_0.guaranteed_slot_list@.contains(
                            f as usize,
                        );
                    assert(Set::new(|f: int| 0 <= f < v.needed.len() && v.needed[f] && written(f))
                        =~= Set::new(
                        |f: int|
                            0 <= f < v.needed.len() && v.needed[f] && slots.contains(f as usize),
                    ));
                    assert(offers(d, v, Candidate::Primitive(task)) == score);
                }
            },
            Task::Compound(c) => {
                if d.summaries@[n - 1].terminating {
                    lemma_branches_contain(d, c, task, v, before, c.methods@.len(), entry);
                }
            },
            Task::Goal(_) => {},
        }
    }
}

/// A nested task goes on with the applicable branch that is sure to write the
/// most needed slots, the earliest of those on a tie; it stops where no branch
/// applies.
pub proof fn nested_tasks_take_the_best_branch<M: PlanModel>(
    c: CompoundTask<M>,
    s: ModelState<M>,
    needed: Seq<bool>,
    n: nat,
)
    requires
        n <= c.methods@.len(),
    ensures
        match nested_choice(c, s, needed, n) {
            Some((score, i)) => {
                &&& i < n
                &&& c.methods@[i as int].valid(s)
                &&& score == needs_met(needed, |f: int| c.methods@[i as int].guaranteed_writes.has(f))
                &&& forall|j: int|
                    0 <= j < n && (#[trigger] c.methods@[j]).valid(s) ==> {
                        let met = needs_met(needed, |f: int| c.methods@[j].guaranteed_writes.has(f));
                        met < score || (met == score && i <= j)
                    }
            },
            None => forall|j: int| 0 <= j < n ==> !(#[trigger] c.methods@[j]).valid(s),
        },
    decreases n,
{
    if n > 0 {
        nested_tasks_take_the_best_branch(c, s, needed, (n - 1) as nat);
        let set = c.methods@[n - 1].guaranteed_writes;
        let written = |f: int| c.methods@[n - 1].guaranteed_writes.has(f);
        lemma_covered_counts(set, needed, needed.len());
        assert(Set::new(|f: int| 0 <= f < needed.len() && needed[f] && written(f)) =~= Set::new(
            |f: int| 0 <= f < needed.len() && needed[f] && set.has(f),
        ));
        assert(needs_met(needed, written) == covered_needs(set, needed, needed.len()));
    }
}

/// Committing a primitive takes one unit of budget, and succeeds where there is
/// one and the primitive is ready. It adds the primitive to the plan, moves the
/// state on, and strikes exactly the slots off the needs that an effect of the
/// primitive writes.
pub proof fn committing_a_primitive_meets_its_needs<M: PlanModel>(
    d: HtnDomain<M>,
    task: usize,
    p: PrimitiveTask<M>,
    v: ChainView<M::Component>,
    budget: nat,
)
    requires
        d.tasks@[task as int] == Task::Primitive(p),
        v.needed.len() <= usize::MAX,
    ensures
        ({
            let r = committed_step(d, task, v, budget);
            &&& r.at is Some <==> p.ready(v.state) && budget > 0
            &&& r.at is None ==> r.left == budget
            &&& r.at matches Some(next) ==> {
                &&& r.left + 1 == budget
                &&& next.state == p.after(v.state)
                &&& next.steps == v.steps + seq![task]
                &&& next.needed.len() == v.needed.len()
                &&& forall|f: int|
                    0 <= f < v.needed.len() ==> (#[trigger] next.needed[f] <==> v.needed[f]
                        && !some_writes(p.effects@, f))
            }
        }),
{
    let r = committed_step(d, task, v, budget);
    if let Some(next) = r.at {
        assert(next.steps =~= v.steps + seq![task]);
        assert forall|f: int| 0 <= f < v.needed.len() implies (#[trigger] next.needed[f]
            <==> v.needed[f] && !some_writes(p.effects@, f)) by {
            if some_writes(p.effects@, f) {
                lemma_writes_listed(p.effects@, f);
            } else {
                lemma_writes_unlisted(p.effects@, f as usize);
            }
        }
    }
}

proof fn lemma_writes_listed<M: PlanModel>(es: Seq<Effect<M>>, f: int)
    requires
        0 <= f <= usize::MAX,
        some_writes(es, f),
    ensures
        writes_of(es).contains(f as usize),
{
    let (k, j) = choose|k: int, j: int|
        0 <= k < es.len() && 0 <= j < es[k].writes@.len() && #[trigger] es[k].writes@[j] == f;
    assert(es[k].writes@.contains(f as usize));
    lemma_some_writes(es, f);
}

proof fn lemma_writes_unlisted<M: PlanModel>(es: Seq<Effect<M>>, f: usize)
    requires
        !some_writes(es, f as int),
    ensures
        !writes_of(es).contains(f),
    decreases es.len(),
{
    if es.len() > 0 {
        let front = es.drop_last();
        assert(!some_writes(front, f as int)) by {
            if some_writes(front, f as int) {
                let (k, j) = choose|k: int, j: int|
                    0 <= k < front.len() && 0 <= j < front[k].writes@.len()
                        && #[trigger] front[k].writes@[j] == f as int;
                assert(es[k].writes@[j] == f);
            }
        }
        lemma_writes_unlisted(front, f);
        if writes_of(es).contains(f) {
            let i = writes_of(es).index_of(f);
            let n = writes_of(front).len() as int;
            if i < n {
                assert(writes_of(front)[i] == f);
            } else {
                assert(es[es.len() - 1].writes@[i - n] == f);
            }
        }
    }
}

/// Whether a candidate expands at a point with this budget or one that failed
/// expansions have used of it.
pub open spec fn expands_within<M: PlanModel>(
    d: HtnDomain<M>,
    candidate: Candidate,
    v: ChainView<M::Component>,
    budget: nat,
    r: Expansion<M::Component>,
) -> bool {
    exists|b: nat| b <= budget && #[trigger] expanded(d, candidate, v, b) == r
}

/// Whether a candidate fails to expand with this budget or one that failed
/// expansions have used of it.
pub open spec fn fails_within<M: PlanModel>(
    d: HtnDomain<M>,
    candidate: Candidate,
    v: ChainView<M::Component>,
    budget: nat,
) -> bool {
    exists|b: nat| b <= budget && (#[trigger] expanded(d, candidate, v, b)).at is None
}

/// The candidates are tried in order until one expands: what comes out is the
/// expansion of a candidate of which all those before it fail, and nothing comes
/// out only where every candidate fails.
pub proof fn the_first_that_expands_is_taken<M: PlanModel>(
    d: HtnDomain<M>,
    list: Seq<(usize, Candidate)>,
    k: nat,
    v: ChainView<M::Component>,
    budget: nat,
)
    requires
        k <= list.len(),
    ensures
        ({
            let r = first_expansion(d, list, k, v, budget);
            &&& r.left <= budget
            &&& r.at is Some ==> exists|i: int|
                k <= i < list.len() && expands_within(d, (#[trigger] list[i]).1, v, budget, r)
                    && forall|j: int|
                    k <= j < i ==> fails_within(d, (#[trigger] list[j]).1, v, budget)
            &&& r.at is None ==> forall|j: int|
                k <= j < list.len() ==> fails_within(d, (#[trigger] list[j]).1, v, budget)
            &&& k < list.len() && expanded(d, list[k as int].1, v, budget).at is Some ==> r
                == expanded(d, list[k as int].1, v, budget)
        }),
    decreases list.len() - k,
{
    if k < list.len() {
        let c = list[k as int].1;
        let here = expanded(d, c, v, budget);
        lemma_expanded_carries_on(d, c, v, budget);
        if here.at is Some {
            assert(expands_within(d, c, v, budget, here));
            assert(k <= k as int && expands_within(d, list[k as int].1, v, budget, here));
        } else {
            the_first_that_expands_is_taken(d, list, k + 1, v, here.left);
            assert(fails_within(d, c, v, budget));
            let r = first_expansion(d, list, k, v, budget);
            assert forall|j: int|
                k <= j < list.len() && (j == k || fails_within(d, list[j].1, v, here.left)) implies fails_within(
                d,
                (#[trigger] list[j]).1,
                v,
                budget,
            ) by {
                if j > k {
                    let b = choose|b: nat|
                        b <= here.left && (#[trigger] expanded(d, list[j].1, v, b)).at is None;
                    assert(b <= budget && expanded(d, list[j].1, v, b).at is None);
                }
            }
            if r.at is Some {
                let i = choose|i: int|
                    k + 1 <= i < list.len() && expands_within(
                        d,
                        (#[trigger] list[i]).1,
                        v,
                        here.left,
                        r,
                    ) && forall|j: int|
                        k + 1 <= j < i ==> fails_within(d, (#[trigger] list[j]).1, v, here.left);
                let b = choose|b: nat|
                    b <= here.left && #[trigger] expanded(d, list[i].1, v, b) == r;
                assert(b <= budget && expanded(d, list[i].1, v, b) == r);
                assert(expands_within(d, list[i].1, v, budget, r));
            }
        }
    }
}

/// Whether points follow one another by commitments: each still needs a slot and
/// has budget, and the next is what the first candidate that expands leads to,
/// with the budget that is left.
pub open spec fn follows<M: PlanModel>(
    d: HtnDomain<M>,
    points: Seq<ChainView<M::Component>>,
    budgets: Seq<nat>,
) -> bool {
    &&& points.len() > 0
    &&& budgets.len() == points.len()
    &&& forall|i: int|
        0 <= i < points.len() - 1 ==> (#[trigger] points[i]).needed.contains(true) && budgets[i] > 0
            && first_expansion(d, ranked(d, points[i], d.tasks@.len()), 0, points[i], budgets[i])
            == (Expansion { at: Some(points[i + 1]), left: budgets[i + 1] })
}

/// Chaining goes on from every point that still needs a slot, as long as there is
/// budget and a candidate expands: the plan is that of where the commitment
/// leads.
pub proof fn chaining_goes_on<M: PlanModel>(
    d: HtnDomain<M>,
    v: ChainView<M::Component>,
    budget: nat,
)
    requires
        d.wf(),
        d.summarized(),
        v.needed.len() == d.slots() <= usize::MAX,
    ensures
        !v.needed.contains(true) ==> chained(d, v, budget) == Some(v.steps),
        v.needed.contains(true) && budget > 0 ==> {
            let r = first_expansion(d, ranked(d, v, d.tasks@.len()), 0, v, budget);
            r.at matches Some(next) ==> {
                &&& r.left < budget
                &&& next.needed.len() == v.needed.len()
                &&& chained(d, v, budget) == chained(d, next, r.left)
            }
        },
{
    let list = ranked(d, v, d.tasks@.len());
    if v.needed.contains(true) && budget > 0 {
        let r = first_expansion(d, list, 0, v, budget);
        the_first_that_expands_is_taken(d, list, 0, v, budget);
        if r.at is Some {
            let i = choose|i: int|
                0 <= i < list.len() && expands_within(d, (#[trigger] list[i]).1, v, budget, r)
                    && forall|j: int|
                    0 <= j < i ==> fails_within(d, (#[trigger] list[j]).1, v, budget);
            let b = choose|b: nat| b <= budget && #[trigger] expanded(d, list[i].1, v, b) == r;
            lemma_ranked_ok(d, v, d.tasks@.len());
            lemma_ranked_cover(d, v, d.tasks@.len());
            assert(candidate_ok(d, list[i].1));
            assert(covers(d, v, list[i].1));
            lemma_progress(d, list[i].1, v, b);
            lemma_expanded_carries_on(d, list[i].1, v, b);
        }
    }
}

/// Chaining ends for one of three reasons. From where it starts it commits to the
/// first candidate that expands, again and again; it gives the steps so far where
/// nothing is needed any more, and it gives nothing only where a slot is still
/// needed and the budget is used up or no candidate expands.
pub proof fn chaining_stops_only_when_stuck<M: PlanModel>(
    d: HtnDomain<M>,
    v: ChainView<M::Component>,
    budget: nat,
) -> (run: (Seq<ChainView<M::Component>>, Seq<nat>))
    requires
        d.wf(),
        d.summarized(),
        v.needed.len() == d.slots() <= usize::MAX,
    ensures
        follows(d, run.0, run.1),
        run.0[0] == v,
        run.1[0] == budget,
        match chained(d, v, budget) {
            Some(steps) => !run.0.last().needed.contains(true) && run.0.last().steps == steps,
            None => run.0.last().needed.contains(true) && (run.1.last() == 0 || first_expansion(
                d,
                ranked(d, run.0.last(), d.tasks@.len()),
                0,
                run.0.last(),
                run.1.last(),
            ).at is None),
        },
    decreases budget,
{
    chaining_goes_on(d, v, budget);
    let r = first_expansion(d, ranked(d, v, d.tasks@.len()), 0, v, budget);
    if v.needed.contains(true) && budget > 0 && r.at is Some {
        let next = r.at->Some_0;
        let rest = chaining_stops_only_when_stuck(d, next, r.left);
        let points = seq![v] + rest.0;
        let budgets = seq![budget] + rest.1;
        assert forall|i: int| 0 <= i < points.len() - 1 implies (#[trigger] points[i]).needed.contains(
            true,
        ) && budgets[i] > 0 && first_expansion(
            d,
            ranked(d, points[i], d.tasks@.len()),
            0,
            points[i],
            budgets[i],
        ) == (Expansion { at: Some(points[i + 1]), left: budgets[i + 1] }) by {
            if i > 0 {
                assert(points[i] == rest.0[i - 1]);
                assert(points[i + 1] == rest.0[i]);
            }
        }
        assert(points.last() == rest.0.last());
        assert(budgets.last() == rest.1.last());
        (points, budgets)
    } else {
        (seq![v], seq![budget])
    }
}

/// Planning toward a goal with effects fails only where chaining is stuck: from
/// the state it starts in, with every slot needed that an effect of the goal
/// writes, commitments lead to a point that still needs a slot and at which the
/// budget is used up or no candidate expands.
pub proof fn no_back_plan_means_stuck<M: PlanModel>(
    d: HtnDomain<M>,
    effects: Seq<Effect<M>>,
    s: ModelState<M>,
    budget: nat,
) -> (run: (Seq<ChainView<M::Component>>, Seq<nat>))
    requires
        d.wf(),
        d.summarized(),
        d.slots() <= usize::MAX,
        effects.len() > 0,
    ensures
        follows(d, run.0, run.1),
        run.0[0].state == s,
        run.0[0].steps.len() == 0,
        run.0[0].needed.len() == d.slots(),
        forall|f: int|
            0 <= f < d.slots() ==> (#[trigger] run.0[0].needed[f] <==> some_writes(effects, f)),
        run.1[0] == budget,
        goal_steps(d, effects, s, budget) is None <==> run.0.last().needed.contains(true),
        goal_steps(d, effects, s, budget) is None ==> run.1.last() == 0 || first_expansion(
            d,
            ranked(d, run.0.last(), d.tasks@.len()),
            0,
            run.0.last(),
            run.1.last(),
        ).at is None,
        goal_steps(d, effects, s, budget) matches Some(steps) ==> run.0.last().steps == steps,
{
    let start = chain_start(d, writes_of(effects), s);
    let run = chaining_stops_only_when_stuck(d, start, budget);
    assert forall|f: int| 0 <= f < d.slots() implies (#[trigger] run.0[0].needed[f] <==> some_writes(
        effects,
        f,
    )) by {
        if some_writes(effects, f) {
            lemma_writes_listed(effects, f);
        } else {
            lemma_writes_unlisted(effects, f as usize);
        }
    }
    run
}

/// How many of the moves choose a branch.
pub open spec fn choices(ts: Seq<Turn>) -> nat
    decreases ts.len(),
{
    if ts.len() == 0 {
        0
    } else {
        choices(ts.drop_last()) + if ts.last() is Choose {
            1nat
        } else {
            0nat
        }
    }
}

/// Whether expanding cannot go on at a frontier, where the plan may hold `limit`
/// steps: a primitive at the front is not ready or the plan is full, a task at
/// the front has no branch that applies, need not terminate, or is nested too
/// deep, or a goal is at the front.
pub open spec fn blocked<M: PlanModel>(
    d: HtnDomain<M>,
    f: FrontierView<M::Component>,
    nested: nat,
    limit: nat,
) -> bool {
    &&& f.stack.len() > 0
    &&& match d.tasks@[f.stack.last() as int] {
        Task::Primitive(p) => !p.ready(f.state) || f.plan.len() >= limit,
        Task::Compound(c) => {
            ||| !d.summaries@[f.stack.last() as int].terminating
            ||| nested >= MAX_EXPANSION_DEPTH
            ||| forall|j: int| 0 <= j < c.methods@.len() ==> !(#[trigger] c.methods@[j]).valid(f.state)
        },
        Task::Goal(_) => true,
    }
}

/// Where an expansion stands among the moves `ts` from `a`: at the end of the
/// task under `rest` where it succeeded, and where it cannot go on otherwise.
spec fn expansion_ends<M: PlanModel>(
    d: HtnDomain<M>,
    a: FrontierView<M::Component>,
    ts: Seq<Turn>,
    rest: Seq<usize>,
    limit: nat,
    r: Expansion<M::Component>,
) -> bool {
    match r.at {
        Some(next) => turns(d, a, ts) matches Some(f) && f.state == next.state && f.stack == rest
            && f.plan == next.steps,
        None => turns(d, a, ts) matches Some(f) && blocked(d, f, choices(ts), limit),
    }
}

proof fn lemma_one_more<M: PlanModel>(
    d: HtnDomain<M>,
    a: FrontierView<M::Component>,
    ts: Seq<Turn>,
    t: Turn,
)
    requires
        turns(d, a, ts) is Some,
    ensures
        turns(d, a, ts.push(t)) == turn(d, turns(d, a, ts)->Some_0, t),
        choices(ts.push(t)) == choices(ts) + if t is Choose {
            1nat
        } else {
            0nat
        },
{
    assert(ts.push(t).drop_last() =~= ts);
}

proof fn lemma_member_decomposes<M: PlanModel>(
    d: HtnDomain<M>,
    a: FrontierView<M::Component>,
    ts: Seq<Turn>,
    rest: Seq<usize>,
    sub: usize,
    v: ChainView<M::Component>,
    budget: nat,
    depth: nat,
) -> (us: Seq<Turn>)
    requires
        turns(d, a, ts) matches Some(f) && f.state == v.state && f.stack == rest.push(sub) && f.plan
            == v.steps,
        choices(ts) >= depth,
    ensures
        expansion_ends(
            d,
            a,
            us,
            rest,
            v.steps.len() + budget,
            expanded_member(d, sub, v, budget, depth),
        ),
        choices(us) >= choices(ts),
    decreases MAX_EXPANSION_DEPTH + 1 - depth, 0nat, 0int,
{
    let at = turns(d, a, ts)->Some_0;
    assert(at.stack.drop_last() =~= rest);
    match d.tasks@[sub as int] {
        Task::Primitive(p) => {
            if p.ready(v.state) && budget > 0 {
                lemma_one_more(d, a, ts, Turn::Run);
                ts.push(Turn::Run)
            } else {
                ts
            }
        },
        Task::Compound(inner) => {
            nested_tasks_take_the_best_branch(inner, v.state, v.needed, inner.methods@.len());
            let best = nested_choice(inner, v.state, v.needed, inner.methods@.len());
            if d.summaries@[sub as int].terminating && depth < MAX_EXPANSION_DEPTH && best is Some {
                let choice = best->Some_0.1;
                let m = inner.methods@[choice as int];
                lemma_one_more(d, a, ts, Turn::Choose(choice));
                assert(m.run_order().skip(0) =~= m.run_order());
                lemma_members_decompose(
                    d,
                    a,
                    ts.push(Turn::Choose(choice)),
                    rest,
                    m,
                    0,
                    v,
                    budget,
                    depth + 1,
                )
            } else {
                ts
            }
        },
        Task::Goal(_) => ts,
    }
}

proof fn lemma_members_decompose<M: PlanModel>(
    d: HtnDomain<M>,
    a: FrontierView<M::Component>,
    ts: Seq<Turn>,
    rest: Seq<usize>,
    m: Method<M>,
    k: nat,
    v: ChainView<M::Component>,
    budget: nat,
    depth: nat,
) -> (us: Seq<Turn>)
    requires
        k <= m.run_order().len(),
        turns(d, a, ts) matches Some(f) && f.state == v.state && f.stack == rest
            + m.run_order().skip(k as int).reverse() && f.plan == v.steps,
        choices(ts) >= depth,
    ensures
        expansion_ends(
            d,
            a,
            us,
            rest,
            v.steps.len() + budget,
            expanded_members(d, m, k, v, budget, depth),
        ),
        choices(us) >= choices(ts),
    decreases MAX_EXPANSION_DEPTH + 1 - depth, 1nat, m.run_order().len() - k,
{
    let order = m.run_order();
    if k >= order.len() {
        assert(rest + order.skip(k as int).reverse() =~= rest);
        ts
    } else {
        let sub = order[k as int];
        let under = rest + order.skip((k + 1) as int).reverse();
        assert(rest + order.skip(k as int).reverse() =~= under.push(sub));
        let r = expanded_member(d, sub, v, budget, depth);
        lemma_member_carries_on(d, sub, v, budget, depth);
        let us = lemma_member_decomposes(d, a, ts, under, sub, v, budget, depth);
        if r.at is Some {
            lemma_members_decompose(d, a, us, rest, m, k + 1, r.at->Some_0, r.left, depth)
        } else {
            us
        }
    }
}

/// A candidate that expands is carried out whole: from its task, moves that run
/// primitives where they are ready and replace tasks by the members of branches
/// that apply lead to where nothing is left of it, and the steps that were added
/// are those that were run, one unit of budget each. A candidate fails only for a
/// reason: such moves lead to where expanding cannot go on.
pub proof fn candidates_are_carried_out_whole<M: PlanModel>(
    d: HtnDomain<M>,
    candidate: Candidate,
    v: ChainView<M::Component>,
    budget: nat,
) -> (ts: Seq<Turn>)
    requires
        offers(d, v, candidate) > 0,
    ensures
        ({
            let start = FrontierView {
                state: v.state,
                stack: seq![task_of(candidate)],
                plan: v.steps,
                g: 0,
            };
            let r = expanded(d, candidate, v, budget);
            &&& turns(d, start, ts) is Some
            &&& r.at matches Some(next) ==> {
                let f = turns(d, start, ts)->Some_0;
                &&& f.stack.len() == 0
                &&& f.state == next.state
                &&& f.plan == next.steps
                &&& f.plan.len() + r.left == v.steps.len() + budget
            }
            &&& r.at is None ==> blocked(
                d,
                turns(d, start, ts)->Some_0,
                choices(ts),
                v.steps.len() + budget,
            )
        }),
{
    let none = Seq::<usize>::empty();
    let a = FrontierView {
        state: v.state,
        stack: seq![task_of(candidate)],
        plan: v.steps,
        g: 0,
    };
    let still = Seq::<Turn>::empty();
    assert(turns(d, a, still) == Some(a));
    assert(a.stack.drop_last() =~= none);
    lemma_expanded_carries_on(d, candidate, v, budget);
    match candidate {
        Candidate::Primitive(i) => {
            if budget > 0 {
                lemma_one_more(d, a, still, Turn::Run);
                still.push(Turn::Run)
            } else {
                still
            }
        },
        Candidate::Compound(i, m) => {
            let method = d.tasks@[i as int]->Compound_0.methods@[m as int];
            let choice = Turn::Choose(m as nat);
            lemma_one_more(d, a, still, choice);
            assert(method.run_order().skip(0) =~= method.run_order());
            lemma_members_decompose(d, a, still.push(choice), none, method, 0, v, budget, 0)
        },
    }
}

} // verus!
