//! The baked, validated network of tasks.

use crate::model::{
    all_fit, all_hold, apply_all, effects_apply_in_order, effects_fit, evaluate_all,
    lemma_apply_all_len, Effect, ModelState, PlanModel, Precondition, ScoreFn,
};
use crate::names::{intern, same_name, text_of};
use crate::order::{topo_orders, SubtaskOrder, LINEARIZATION_CAP};
use crate::state::{ComponentRegistry, FieldSet, PlanState};
use crate::summaries::TaskSummary;
use ustr::Ustr;
use vstd::prelude::*;

verus! {

/// How a compound task's *valid* branches are ranked before the planner
/// descends. Only valid branches are ranked, and a look-ahead pin overrides
/// ranking entirely.
pub enum SelectionPolicy<M: PlanModel> {
    /// Branches are tried in declaration order.
    FirstMatch,
    /// The branch with the highest utility comes first (a branch without one
    /// scores 0); ties break by declaration order.
    HighestUtility,
    /// Branches are sampled without replacement, proportional to their
    /// utilities (a branch without one weighs one). The sampled order is a
    /// function of the seed, the task's identity and the choice point's
    /// position in the plan.
    WeightedRandom {
        /// Seed for the weighted sampler.
        seed: u64,
    },
    /// The author's ranker. Branches that it leaves out are appended in
    /// declaration order, so no branch is lost.
    Custom(M::Ranker),
}

impl<M: PlanModel> Default for SelectionPolicy<M> {
    fn default() -> (p: SelectionPolicy<M>)
        ensures
            p is FirstMatch,
    {
        SelectionPolicy::FirstMatch
    }
}

/// One baked decomposition alternative of a compound task. Its preconditions
/// must all hold for its subtask list to be selected.
pub struct Method<M: PlanModel> {
    /// The branch's declared name, if any.
    pub name: Option<Ustr>,
    /// The branch's declared utility, if any.
    pub utility: Option<ScoreFn<M>>,
    /// Conditions that must all hold for this method to be chosen.
    pub preconditions: Vec<Precondition<M>>,
    /// Subtask indices into the domain's tasks, in declaration order.
    pub subtasks: Vec<u32>,
    /// How the members are ordered.
    pub order: SubtaskOrder,
    /// Where the plan pauses: before the member at each listed position (a
    /// position behind the last member pauses after the whole sequence).
    pub pause_positions: Vec<u32>,
    /// Slots that some refinement of the members may write.
    pub possible_writes: FieldSet,
    /// Slots that every refinement of the members writes.
    pub guaranteed_writes: FieldSet,
    /// Lower bound on the total primitive cost of the members.
    pub min_cost: u64,
}

/// A baked compound task.
pub struct CompoundTask<M: PlanModel> {
    /// The task's name.
    pub name: Ustr,
    /// The task function's identity; `None` for synthesized tasks.
    pub type_id: Option<u64>,
    /// How the task's valid branches are ranked.
    pub policy: SelectionPolicy<M>,
    /// Ordered decomposition alternatives.
    pub methods: Vec<Method<M>>,
}

/// A baked primitive (leaf) task. `expected_effects` are simulated during
/// planning but are only hoped for: they are never applied to the real entity.
pub struct PrimitiveTask<M: PlanModel> {
    /// The task's name.
    pub name: Ustr,
    /// The task function's identity; `None` for synthesized tasks.
    pub type_id: Option<u64>,
    /// Conditions that must all hold for the task to be pickable.
    pub preconditions: Vec<Precondition<M>>,
    /// Effects applied to the scratchpad during search and to the real entity
    /// at execution.
    pub effects: Vec<Effect<M>>,
    /// Anticipated effects, applied during planning only.
    pub expected_effects: Vec<Effect<M>>,
    /// The real-world action dispatched at execution (if any).
    pub action: Option<M::Action>,
    /// The declared cost, if any.
    pub cost: Option<ScoreFn<M>>,
    /// Every slot that an effect or an expected effect writes, in order.
    pub write_slot_list: Vec<usize>,
    /// Every slot that an effect writes, in order.
    pub guaranteed_slot_list: Vec<usize>,
}

/// A baked goal task: a named set of desired effects for back-planning.
pub struct GoalTask<M: PlanModel> {
    /// The goal's name.
    pub name: Ustr,
    /// The goal function's identity.
    pub type_id: u64,
    /// The desired effects that form the goal state.
    pub effects: Vec<Effect<M>>,
}

/// One task in the baked domain.
pub enum Task<M: PlanModel> {
    /// A leaf task.
    Primitive(PrimitiveTask<M>),
    /// A decomposition task.
    Compound(CompoundTask<M>),
    /// A back-planning target.
    Goal(GoalTask<M>),
}

/// A baked and validated HTN domain. Both planners read it.
pub struct HtnDomain<M: PlanModel> {
    /// All tasks in discovery order; index `0` is the root.
    pub tasks: Vec<Task<M>>,
    /// The root task index.
    pub root: usize,
    /// The component registry of the domain.
    pub components: ComponentRegistry,
    /// One inferred summary per task.
    pub summaries: Vec<TaskSummary>,
}

impl<M: PlanModel> Method<M> {
    /// Whether the method is valid in `s`: its preconditions all hold.
    pub open spec fn valid(&self, s: ModelState<M>) -> bool {
        all_hold(self.preconditions@, s)
    }

    /// Whether the member order was baked for exactly these members: the
    /// constraint graph has one node per member and at least one topological
    /// order, of which the count (up to the cap) and the first are recorded.
    pub open spec fn order_wf(&self) -> bool {
        match self.order {
            SubtaskOrder::Total => true,
            SubtaskOrder::Partial { preds, orders, first } => {
                &&& preds@.len() == self.subtasks@.len()
                &&& 0 < preds@.len() <= 64
                &&& 0 < topo_orders(preds@).len()
                &&& orders == vstd::math::min(
                    topo_orders(preds@).len() as int,
                    LINEARIZATION_CAP as int,
                )
                &&& first@ == topo_orders(preds@)[0]
                &&& self.pause_positions@.len() == 0
            },
        }
    }

    /// Whether the method fits a domain of `n` tasks over `nf` slots.
    pub open spec fn wf(&self, n: nat, nf: nat) -> bool {
        &&& all_fit(self.preconditions@, nf)
        &&& forall|i: int| 0 <= i < self.subtasks@.len() ==> (#[trigger] self.subtasks@[i]) < n
        &&& self.subtasks@.len() <= u32::MAX
        &&& self.order_wf()
    }
}

impl<M: PlanModel> PrimitiveTask<M> {
    /// Whether every precondition holds in `s`.
    pub open spec fn ready(&self, s: ModelState<M>) -> bool {
        all_hold(self.preconditions@, s)
    }

    /// The state after effects and expected effects are applied in `s`.
    pub open spec fn after(&self, s: ModelState<M>) -> ModelState<M> {
        apply_all(self.expected_effects@, apply_all(self.effects@, s))
    }

    /// The state after the effects alone are applied in `s`.
    pub open spec fn committed(&self, s: ModelState<M>) -> ModelState<M> {
        apply_all(self.effects@, s)
    }

    /// The cost of running the task in `s`; negative costs count zero.
    pub open spec fn step_cost(&self, s: ModelState<M>) -> u64 {
        match self.cost {
            Some(f) => if f.of(s) <= 0 {
                0
            } else {
                f.of(s) as u64
            },
            None => 0,
        }
    }

    /// Whether the task fits a domain over `nf` slots.
    pub open spec fn wf(&self, nf: nat) -> bool {
        &&& all_fit(self.preconditions@, nf)
        &&& effects_fit(self.effects@, nf)
        &&& effects_fit(self.expected_effects@, nf)
        &&& self.guaranteed_slot_list@ == writes_of(self.effects@)
        &&& self.write_slot_list@ == writes_of(self.effects@) + writes_of(self.expected_effects@)
    }

    /// Whether every precondition holds for the scratchpad state.
    pub fn preconditions_met(&self, state: &PlanState<M::Component>) -> (b: bool)
        requires
            all_fit(self.preconditions@, state@.len()),
        ensures
            b == self.ready(state@),
    {
        evaluate_all(&self.preconditions, state)
    }

    /// Applies effects and expected effects to the scratchpad.
    pub fn apply_effects(&self, state: &mut PlanState<M::Component>)
        requires
            self.wf(old(state)@.len()),
        ensures
            final(state)@ == self.after(old(state)@),
            final(state)@.len() == old(state)@.len(),
    {
        apply_list(&self.effects, state);
        apply_list(&self.expected_effects, state);
    }

    /// Applies the effects alone to the scratchpad: what really happens when
    /// the task executes.
    pub fn commit_effects(&self, state: &mut PlanState<M::Component>)
        requires
            self.wf(old(state)@.len()),
        ensures
            final(state)@ == self.committed(old(state)@),
            final(state)@.len() == old(state)@.len(),
    {
        apply_list(&self.effects, state);
    }

    /// Every slot that an effect or an expected effect writes, in order.
    pub fn write_slots(&self) -> (slots: &Vec<usize>)
        ensures
            *slots == self.write_slot_list,
    {
        &self.write_slot_list
    }

    /// Every slot that an effect writes, in order.
    pub fn guaranteed_slots(&self) -> (slots: &Vec<usize>)
        ensures
            *slots == self.guaranteed_slot_list,
    {
        &self.guaranteed_slot_list
    }

    /// The cost of running the task in the scratchpad state.
    pub(crate) fn cost_in(&self, state: &PlanState<M::Component>) -> (c: u64)
        ensures
            c == self.step_cost(state@),
    {
        match &self.cost {
            Some(f) => {
                let c: i64 = f.evaluate(state);
                if c <= 0 {
                    0
                } else {
                    c as u64
                }
            },
            None => 0,
        }
    }
}

/// The slots that a list of effects writes, in order.
pub open spec fn writes_of<M: PlanModel>(es: Seq<Effect<M>>) -> Seq<usize>
    decreases es.len(),
{
    if es.len() == 0 {
        Seq::empty()
    } else {
        writes_of(es.drop_last()) + es.last().writes@
    }
}

/// Applies a list of effects, first to last.
pub(crate) fn apply_list<M: PlanModel>(es: &Vec<Effect<M>>, state: &mut PlanState<M::Component>)
    requires
        effects_fit(es@, old(state)@.len()),
    ensures
        final(state)@ == apply_all(es@, old(state)@),
        final(state)@.len() == old(state)@.len(),
{
    for i in 0..es.len()
        invariant
            effects_fit(es@, old(state)@.len()),
            state@.len() == old(state)@.len(),
            state@ == apply_all(es@.take(i as int), old(state)@),
    {
        es[i].apply(state);
        assert(es@.take(i + 1).drop_last() =~= es@.take(i as int));
        assert(es@.take(i + 1).last() == es@[i as int]);
    }
    assert(es@.take(es@.len() as int) =~= es@);
}

/// Collects the slots that a list of effects writes, in order.
pub(crate) fn collect_writes<M: PlanModel>(es: &Vec<Effect<M>>, out: &mut Vec<usize>)
    ensures
        final(out)@ == old(out)@ + writes_of(es@),
{
    assert(out@ =~= old(out)@ + writes_of(es@.take(0)));
    for i in 0..es.len()
        invariant
            out@ == old(out)@ + writes_of(es@.take(i as int)),
    {
        let w = &es[i].writes;
        let ghost before = out@;
        for j in 0..w.len()
            invariant
                out@ == before + w@.take(j as int),
        {
            out.push(w[j]);
            assert(w@.take(j + 1) =~= w@.take(j as int).push(w@[j as int]));
            assert(out@ =~= before + w@.take(j + 1));
        }
        proof {
            assert(w@.take(w@.len() as int) =~= w@);
            assert(es@.take(i + 1).drop_last() =~= es@.take(i as int));
            assert(es@.take(i + 1).last() == es@[i as int]);
            assert(out@ =~= old(out)@ + writes_of(es@.take(i + 1)));
        }
    }
    assert(es@.take(es@.len() as int) =~= es@);
}

impl<M: PlanModel> GoalTask<M> {
    /// The slots that the goal's effects write, in order.
    pub fn write_slots(&self) -> (slots: Vec<usize>)
        ensures
            slots@ == writes_of(self.effects@),
    {
        let mut out: Vec<usize> = Vec::new();
        collect_writes(&self.effects, &mut out);
        assert(out@ =~= writes_of(self.effects@));
        out
    }
}

impl<M: PlanModel> CompoundTask<M> {
    /// Whether the task fits a domain of `n` tasks over `nf` slots.
    pub open spec fn wf(&self, n: nat, nf: nat) -> bool {
        &&& self.methods@.len() <= u32::MAX
        &&& forall|i: int| 0 <= i < self.methods@.len() ==> (#[trigger] self.methods@[i]).wf(n, nf)
    }

    /// Whether the preconditions of every method fit `nf` slots.
    pub open spec fn checks_fit(&self, nf: nat) -> bool {
        forall|i: int|
            0 <= i < self.methods@.len() ==> all_fit(
                (#[trigger] self.methods@[i]).preconditions@,
                nf,
            )
    }

    /// The first valid method at or after `from`, if any.
    pub open spec fn first_valid(&self, s: ModelState<M>, from: nat) -> Option<nat>
        decreases self.methods@.len() - from,
    {
        if from >= self.methods@.len() {
            None
        } else if self.methods@[from as int].valid(s) {
            Some(from)
        } else {
            self.first_valid(s, from + 1)
        }
    }

    /// First method (at or after `skip`) whose preconditions hold.
    pub fn find_method(&self, state: &PlanState<M::Component>, skip: usize) -> (found: Option<
        (&Method<M>, usize),
    >)
        requires
            self.checks_fit(state@.len()),
        ensures
            match found {
                Some((m, i)) => self.first_valid(state@, skip as nat) == Some(i as nat) && *m
                    == self.methods@[i as int] && i < self.methods@.len(),
                None => self.first_valid(state@, skip as nat) is None,
            },
    {
        let mut i: usize = skip;
        while i < self.methods.len()
            invariant
                self.checks_fit(state@.len()),
                skip <= i,
                self.first_valid(state@, skip as nat) == self.first_valid(state@, i as nat),
            decreases self.methods@.len() - i,
        {
            if evaluate_all(&self.methods[i].preconditions, state) {
                return Some((&self.methods[i], i));
            }
            i = i + 1;
        }
        None
    }
}

/// What [`CompoundTask::find_method`] finds is the least valid index from
/// `from` on, and it finds one exactly where there is one.
pub proof fn first_valid_is_the_least<M: PlanModel>(
    c: CompoundTask<M>,
    s: ModelState<M>,
    from: nat,
)
    ensures
        match c.first_valid(s, from) {
            Some(i) => from <= i < c.methods@.len() && c.methods@[i as int].valid(s) && forall|j: int|
                from <= j < i ==> !(#[trigger] c.methods@[j]).valid(s),
            None => forall|j: int|
                from <= j < c.methods@.len() ==> !(#[trigger] c.methods@[j]).valid(s),
        },
    decreases c.methods@.len() - from,
{
    if from < c.methods@.len() && !c.methods@[from as int].valid(s) {
        first_valid_is_the_least(c, s, from + 1);
    }
}

impl<M: PlanModel> Task<M> {
    /// The task's name.
    pub open spec fn name_spec(&self) -> Ustr {
        match self {
            Task::Primitive(t) => t.name,
            Task::Compound(t) => t.name,
            Task::Goal(t) => t.name,
        }
    }

    /// The task's name.
    pub fn name(&self) -> (n: Ustr)
        ensures
            n == self.name_spec(),
    {
        match self {
            Task::Primitive(t) => t.name,
            Task::Compound(t) => t.name,
            Task::Goal(t) => t.name,
        }
    }

    /// Whether this is a compound task.
    pub fn is_compound(&self) -> (b: bool)
        ensures
            b == (self is Compound),
    {
        match self {
            Task::Compound(_) => true,
            _ => false,
        }
    }

    /// Whether the task fits a domain of `n` tasks over `nf` slots.
    pub open spec fn wf(&self, n: nat, nf: nat) -> bool {
        match self {
            Task::Primitive(p) => p.wf(nf),
            Task::Compound(c) => c.wf(n, nf),
            Task::Goal(g) => effects_fit(g.effects@, nf),
        }
    }
}

impl<M: PlanModel> HtnDomain<M> {
    /// The number of registered component slots.
    pub open spec fn slots(&self) -> nat {
        self.components.slots@.len()
    }

    /// Whether the network is well-formed: every index is in range, and every
    /// baked list is what it stands for.
    pub open spec fn wf(&self) -> bool {
        &&& 0 < self.tasks@.len() <= u32::MAX
        &&& self.root < self.tasks@.len()
        &&& forall|i: int|
            0 <= i < self.tasks@.len() ==> (#[trigger] self.tasks@[i]).wf(
                self.tasks@.len(),
                self.slots(),
            )
    }
}

impl<M: PlanModel> Task<M> {
    /// The identity of the function that the task was recorded from, if any.
    pub open spec fn key_spec(&self) -> Option<u64> {
        match self {
            Task::Primitive(t) => t.type_id,
            Task::Compound(t) => t.type_id,
            Task::Goal(t) => Some(t.type_id),
        }
    }

    /// The identity of the function that the task was recorded from, if any.
    pub fn key(&self) -> (key: Option<u64>)
        ensures
            key == self.key_spec(),
    {
        match self {
            Task::Primitive(t) => t.type_id,
            Task::Compound(t) => t.type_id,
            Task::Goal(t) => Some(t.type_id),
        }
    }
}

impl<M: PlanModel> HtnDomain<M> {
    /// The first task from `k` on that was recorded from the function with
    /// identity `key`.
    pub open spec fn index_from(&self, key: u64, k: nat) -> Option<usize>
        decreases self.tasks@.len() - k,
    {
        if k >= self.tasks@.len() {
            None
        } else if self.tasks@[k as int].key_spec() == Some(key) {
            Some(k as usize)
        } else {
            self.index_from(key, k + 1)
        }
    }

    /// The task that was recorded from the function with identity `key`.
    pub open spec fn index_of_key(&self, key: u64) -> Option<usize> {
        self.index_from(key, 0)
    }

    /// The root task.
    pub fn root_task(&self) -> (task: &Task<M>)
        requires
            self.wf(),
        ensures
            *task == self.tasks@[self.root as int],
    {
        &self.tasks[self.root]
    }

    /// Resolves a function's identity to its index into the tasks.
    pub fn task_index_by_type(&self, key: u64) -> (index: Option<usize>)
        ensures
            index == self.index_of_key(key),
            index matches Some(i) ==> i < self.tasks@.len(),
    {
        for k in 0..self.tasks.len()
            invariant
                self.index_of_key(key) == self.index_from(key, k as nat),
        {
            if let Some(own) = self.tasks[k].key() {
                if own == key {
                    return Some(k);
                }
            }
        }
        None
    }

    /// The index of the first task from `k` on with the given name.
    pub open spec fn named_from(&self, name: Seq<char>, k: nat) -> Option<int>
        decreases self.tasks@.len() - k,
    {
        if k >= self.tasks@.len() {
            None
        } else if text_of(self.tasks@[k as int].name_spec()) == name {
            Some(k as int)
        } else {
            self.named_from(name, k + 1)
        }
    }

    /// Looks a task up by its display name; the first one wins.
    pub fn get_task(&self, name: &str) -> (task: Option<&Task<M>>)
        ensures
            match task {
                Some(t) => self.named_from(name@, 0) matches Some(i) && 0 <= i < self.tasks@.len()
                    && *t == self.tasks@[i],
                None => self.named_from(name@, 0) is None,
            },
    {
        let wanted = intern(name);
        for k in 0..self.tasks.len()
            invariant
                text_of(wanted) == name@,
                self.named_from(name@, 0) == self.named_from(name@, k as nat),
        {
            if same_name(self.tasks[k].name(), wanted) {
                return Some(&self.tasks[k]);
            }
        }
        None
    }

    /// The inferred summary of the task recorded from a function.
    pub fn task_summary(&self, key: u64) -> (summary: Option<&TaskSummary>)
        requires
            self.summaries@.len() == self.tasks@.len(),
        ensures
            match self.index_of_key(key) {
                Some(i) => summary == Some(&self.summaries@[i as int]),
                None => summary is None,
            },
    {
        match self.task_index_by_type(key) {
            Some(i) => Some(&self.summaries[i]),
            None => None,
        }
    }

    /// The goal recorded from a goal function, for back-planning.
    pub fn goal(&self, key: u64) -> (goal: Option<&GoalTask<M>>)
        ensures
            goal == match self.index_of_key(key) {
                Some(i) => match self.tasks@[i as int] {
                    Task::Goal(g) => Some(&g),
                    _ => None,
                },
                None => None,
            },
    {
        match self.task_index_by_type(key) {
            Some(i) => match &self.tasks[i] {
                Task::Goal(g) => Some(g),
                _ => None,
            },
            None => None,
        }
    }

    /// The names of the primitives among the first `k` tasks.
    pub open spec fn primitive_names_below(&self, k: nat) -> Seq<Ustr>
        decreases k,
    {
        if k == 0 {
            Seq::empty()
        } else {
            match self.tasks@[k - 1] {
                Task::Primitive(p) => self.primitive_names_below((k - 1) as nat).push(p.name),
                _ => self.primitive_names_below((k - 1) as nat),
            }
        }
    }

    /// The name of every primitive task in the domain.
    pub fn primitive_names(&self) -> (names: Vec<Ustr>)
        ensures
            names@ == self.primitive_names_below(self.tasks@.len()),
    {
        let mut names: Vec<Ustr> = Vec::new();
        for k in 0..self.tasks.len()
            invariant
                names@ == self.primitive_names_below(k as nat),
        {
            match &self.tasks[k] {
                Task::Primitive(p) => {
                    names.push(p.name);
                },
                _ => {},
            }
        }
        names
    }
}

/// An effect list of a primitive keeps the number of slots.
pub proof fn lemma_after_len<M: PlanModel>(p: PrimitiveTask<M>, s: ModelState<M>)
    requires
        p.wf(s.len()),
    ensures
        p.after(s).len() == s.len(),
        p.committed(s).len() == s.len(),
{
    lemma_apply_all_len(p.effects@, s);
    lemma_apply_all_len(p.expected_effects@, apply_all(p.effects@, s));
}

/// Whether no goal is a member of a method.
pub open spec fn no_goal_members<M: PlanModel>(d: HtnDomain<M>) -> bool {
    forall|t: int, i: int, k: int|
        0 <= t < d.tasks@.len() && d.tasks@[t] is Compound && 0 <= i
            < d.tasks@[t]->Compound_0.methods@.len() && 0 <= k
            < d.tasks@[t]->Compound_0.methods@[i].subtasks@.len() ==> !(
        d.tasks@[#[trigger] d.tasks@[t]->Compound_0.methods@[i].subtasks@[k] as int] is Goal)
}

/// A task is found by the identity of the function it was recorded from, and by
/// its name: the first one that has it, and none only where no task has it.
pub proof fn tasks_are_found_by_identity_and_name<M: PlanModel>(
    d: HtnDomain<M>,
    key: u64,
    name: Seq<char>,
    k: nat,
)
    ensures
        match d.index_from(key, k) {
            Some(i) => k <= i < d.tasks@.len() && d.tasks@[i as int].key_spec() == Some(key)
                && forall|j: int| k <= j < i ==> (#[trigger] d.tasks@[j]).key_spec() != Some(key),
            None => forall|j: int|
                k <= j < d.tasks@.len() ==> (#[trigger] d.tasks@[j]).key_spec() != Some(key),
        },
        match d.named_from(name, k) {
            Some(i) => k <= i < d.tasks@.len() && text_of(d.tasks@[i].name_spec()) == name
                && forall|j: int|
                k <= j < i ==> text_of((#[trigger] d.tasks@[j]).name_spec()) != name,
            None => forall|j: int|
                k <= j < d.tasks@.len() ==> text_of((#[trigger] d.tasks@[j]).name_spec()) != name,
        },
    decreases d.tasks@.len() - k,
{
    assert(d.tasks.len() <= usize::MAX);
    if k < d.tasks@.len() {
        tasks_are_found_by_identity_and_name(d, key, name, k + 1);
    }
}

/// Running a primitive applies its effects and then its expected effects;
/// committing it applies its effects alone. Its cost is what it declares, and
/// nothing where it declares none or less than nothing.
pub proof fn running_applies_effects_then_expectations<M: PlanModel>(
    p: PrimitiveTask<M>,
    s: ModelState<M>,
)
    ensures
        p.after(s) == apply_all(p.effects@ + p.expected_effects@, s),
        p.expected_effects@.len() == 0 ==> p.after(s) == p.committed(s),
        p.committed(s) == apply_all(p.effects@, s),
        p.cost is None ==> p.step_cost(s) == 0,
        p.cost matches Some(f) ==> (f.of(s) >= 0 ==> p.step_cost(s) == f.of(s)) && (f.of(s) < 0
            ==> p.step_cost(s) == 0),
{
    effects_apply_in_order(p.effects@, p.expected_effects@, arbitrary(), s);
}

/// The names of the primitives are listed in the order of the tasks: each
/// primitive's name stands behind those of the primitives before it.
pub proof fn primitive_names_follow_the_tasks<M: PlanModel>(d: HtnDomain<M>, i: int, k: nat)
    requires
        0 <= i < k <= d.tasks@.len(),
    ensures
        d.primitive_names_below(k).len() <= k,
        d.primitive_names_below(i as nat).is_prefix_of(d.primitive_names_below(k)),
        d.tasks@[i] matches Task::Primitive(p) ==> {
            let at = d.primitive_names_below(i as nat).len() as int;
            at < d.primitive_names_below(k).len() && d.primitive_names_below(k)[at] == p.name
        },
        !(d.tasks@[i] is Primitive) ==> d.primitive_names_below((i + 1) as nat)
            == d.primitive_names_below(i as nat),
    decreases k,
{
    lemma_names_len(d, k);
    if i < k - 1 {
        primitive_names_follow_the_tasks(d, i, (k - 1) as nat);
    }
}

proof fn lemma_names_len<M: PlanModel>(d: HtnDomain<M>, k: nat)
    ensures
        d.primitive_names_below(k).len() <= k,
    decreases k,
{
    if k > 0 {
        lemma_names_len(d, (k - 1) as nat);
    }
}

} // verus!
