//! What a task function declares: the builders that it is handed.
//!
//! A task function is handed a [`TaskBuilder`] and declares on it either
//! branches, which makes it a compound task, or preconditions, effects, an
//! action and a cost, which makes it a primitive one. Declarations name
//! component types; slots are given to them when the task is recorded.

use crate::domain::SelectionPolicy;
use crate::model::{PlanModel, ScoreFn};
use ustr::Ustr;
use vstd::prelude::*;

verus! {

/// A parameter of a precondition, effect or utility: a component type.
#[derive(Clone, Copy, Debug)]
pub struct Param {
    /// The component type's identity.
    pub key: u64,
    /// The component type's name.
    pub name: Ustr,
}

/// A declared precondition: its body, and the component types it reads.
pub struct CheckDecl<M: PlanModel> {
    /// The body.
    pub check: M::Check,
    /// The component types it reads.
    pub params: Vec<Param>,
}

/// A declared effect: its body, the component types it is handed, and which of
/// them it writes.
pub struct EffectDecl<M: PlanModel> {
    /// The body.
    pub mutator: M::Mutator,
    /// The component types it is handed.
    pub params: Vec<Param>,
    /// Per parameter, whether the effect writes it.
    pub writes: Vec<bool>,
}

/// A declared member of a branch.
#[derive(Clone, Copy, Debug)]
pub struct MemberDecl {
    /// The member's task function.
    pub task: u64,
    /// The name it is referenced by.
    pub name: Ustr,
    /// Whether it runs after every member declared before it.
    pub chained: bool,
}

/// A handle to one member of a branch, returned by [`MethodBuilder::subtask`]
/// and taken by [`MethodBuilder::before`].
#[derive(Clone, Copy, Debug, PartialEq, Eq, Structural)]
pub struct SubtaskHandle {
    /// The member's position.
    pub pos: u32,
}

/// One branch of a compound task.
pub struct MethodBuilder<M: PlanModel> {
    /// The branch's name, if any.
    pub name: Option<Ustr>,
    /// The branch's utility, if any.
    pub utility: Option<ScoreFn<M>>,
    /// The branch's preconditions.
    pub preconditions: Vec<CheckDecl<M>>,
    /// The branch's members, in declaration order.
    pub subtasks: Vec<MemberDecl>,
    /// Whether some member is unordered.
    pub unordered: bool,
    /// Pairs of member positions, the first to complete before the second starts.
    pub edges: Vec<(u32, u32)>,
    /// Where the plan pauses: before the member at each listed position.
    pub pause_positions: Vec<u32>,
    /// The component types that the branch names, in the order it names them.
    pub declared: Vec<Param>,
}

/// What a task function declares on.
pub struct TaskBuilder<M: PlanModel> {
    /// Preconditions of a primitive.
    pub preconditions: Vec<CheckDecl<M>>,
    /// Effects of a primitive.
    pub effects: Vec<EffectDecl<M>>,
    /// Anticipated effects of a primitive.
    pub expected_effects: Vec<EffectDecl<M>>,
    /// The action of a primitive.
    pub action: Option<M::Action>,
    /// The cost of a primitive.
    pub cost: Option<ScoreFn<M>>,
    /// Branches of a compound task.
    pub methods: Vec<MethodBuilder<M>>,
    /// The branch-selection policy of a compound task.
    pub selection: Option<SelectionPolicy<M>>,
    /// The component types named outside branches, in the order they are named.
    pub declared: Vec<Param>,
}

/// What a goal function declares on: a set of desired effects.
pub struct GoalBuilder<M: PlanModel> {
    /// The desired effects.
    pub effects: Vec<EffectDecl<M>>,
}

/// Appends the parameters of a declaration.
fn append_params(list: &mut Vec<Param>, params: &Vec<Param>)
    ensures
        final(list)@ == old(list)@ + params@,
{
    let ghost before = list@;
    for i in 0..params.len()
        invariant
            list@ == before + params@.take(i as int),
    {
        list.push(params[i]);
        assert(before + params@.take(i + 1) =~= (before + params@.take(i as int)).push(
            params@[i as int],
        ));
    }
    assert(params@.take(params@.len() as int) =~= params@);
}

impl<M: PlanModel> TaskBuilder<M> {
    /// A builder on which nothing is declared.
    pub fn new() -> (b: TaskBuilder<M>)
        ensures
            b.preconditions@.len() == 0,
            b.effects@.len() == 0,
            b.expected_effects@.len() == 0,
            b.action is None,
            b.cost is None,
            b.methods@.len() == 0,
            b.selection is None,
            b.declared@.len() == 0,
    {
        TaskBuilder {
            preconditions: Vec::new(),
            effects: Vec::new(),
            expected_effects: Vec::new(),
            action: None,
            cost: None,
            methods: Vec::new(),
            selection: None,
            declared: Vec::new(),
        }
    }

    /// Sets the compound task's branch-selection policy. On a primitive task it
    /// is an error that building the domain reports.
    pub fn select(&mut self, policy: SelectionPolicy<M>) -> (r: &mut TaskBuilder<M>)
        ensures
            *r == (TaskBuilder { selection: Some(policy), ..*old(self) }),
            *final(self) == *final(r),
    {
        self.selection = Some(policy);
        self
    }

    /// Sets a constant action cost. Negative costs count zero.
    pub fn cost(&mut self, c: i64) -> (r: &mut TaskBuilder<M>)
        ensures
            *r == (TaskBuilder { cost: Some(ScoreFn::Constant(c)), ..*old(self) }),
            *final(self) == *final(r),
    {
        self.cost = Some(ScoreFn::Constant(c));
        self
    }

    /// Sets a cost that is sampled from the scratchpad. It replaces a constant
    /// cost set before.
    pub fn cost_fn(&mut self, f: M::Score) -> (r: &mut TaskBuilder<M>)
        ensures
            *r == (TaskBuilder { cost: Some(ScoreFn::Dynamic(f)), ..*old(self) }),
            *final(self) == *final(r),
    {
        self.cost = Some(ScoreFn::Dynamic(f));
        self
    }

    /// Adds a precondition.
    pub fn precondition(&mut self, p: CheckDecl<M>) -> (r: &mut TaskBuilder<M>)
        ensures
            r.preconditions@ == old(self).preconditions@.push(p),
            r.declared@ == old(self).declared@ + p.params@,
            *r == (TaskBuilder {
                preconditions: r.preconditions,
                declared: r.declared,
                ..*old(self)
            }),
            *final(self) == *final(r),
    {
        append_params(&mut self.declared, &p.params);
        self.preconditions.push(p);
        self
    }

    /// Adds an effect: applied to the scratchpad during search, and to the real
    /// entity when the task executes.
    pub fn effect(&mut self, e: EffectDecl<M>) -> (r: &mut TaskBuilder<M>)
        ensures
            r.effects@ == old(self).effects@.push(e),
            r.declared@ == old(self).declared@ + e.params@,
            *r == (TaskBuilder { effects: r.effects, declared: r.declared, ..*old(self) }),
            *final(self) == *final(r),
    {
        append_params(&mut self.declared, &e.params);
        self.effects.push(e);
        self
    }

    /// Adds an anticipated effect: applied to the scratchpad during search, and
    /// never to the real entity.
    pub fn expected(&mut self, e: EffectDecl<M>) -> (r: &mut TaskBuilder<M>)
        ensures
            r.expected_effects@ == old(self).expected_effects@.push(e),
            r.declared@ == old(self).declared@ + e.params@,
            *r == (TaskBuilder {
                expected_effects: r.expected_effects,
                declared: r.declared,
                ..*old(self)
            }),
            *final(self) == *final(r),
    {
        append_params(&mut self.declared, &e.params);
        self.expected_effects.push(e);
        self
    }

    /// Sets the real-world action that executing the task dispatches.
    pub fn action(&mut self, f: M::Action) -> (r: &mut TaskBuilder<M>)
        ensures
            *r == (TaskBuilder { action: Some(f), ..*old(self) }),
            *final(self) == *final(r),
    {
        self.action = Some(f);
        self
    }

    /// Begins a new branch, which makes the task compound.
    pub fn branch(&mut self) -> (m: &mut MethodBuilder<M>)
        ensures
            m.is_fresh(),
            final(self).methods@ == old(self).methods@.push(*final(m)),
            *final(self) == (TaskBuilder { methods: final(self).methods, ..*old(self) }),
    {
        self.methods.push(MethodBuilder::new());
        let last: usize = self.methods.len() - 1;
        &mut self.methods[last]
    }
}

impl<M: PlanModel> MethodBuilder<M> {
    /// Whether nothing is declared on the branch.
    pub open spec fn is_fresh(&self) -> bool {
        &&& self.name is None
        &&& self.utility is None
        &&& self.preconditions@.len() == 0
        &&& self.subtasks@.len() == 0
        &&& !self.unordered
        &&& self.edges@.len() == 0
        &&& self.pause_positions@.len() == 0
        &&& self.declared@.len() == 0
    }

    /// A branch on which nothing is declared: its task decomposes to nothing.
    pub fn new() -> (m: MethodBuilder<M>)
        ensures
            m.is_fresh(),
    {
        MethodBuilder {
            name: None,
            utility: None,
            preconditions: Vec::new(),
            subtasks: Vec::new(),
            unordered: false,
            edges: Vec::new(),
            pause_positions: Vec::new(),
            declared: Vec::new(),
        }
    }

    /// Names the branch.
    pub fn named(&mut self, name: Ustr) -> (r: &mut MethodBuilder<M>)
        ensures
            *r == (MethodBuilder { name: Some(name), ..*old(self) }),
            *final(self) == *final(r),
    {
        self.name = Some(name);
        self
    }

    /// Sets a constant utility.
    pub fn utility(&mut self, u: i64) -> (r: &mut MethodBuilder<M>)
        ensures
            *r == (MethodBuilder { utility: Some(ScoreFn::Constant(u)), ..*old(self) }),
            *final(self) == *final(r),
    {
        self.utility = Some(ScoreFn::Constant(u));
        self
    }

    /// Sets a utility that is scored from components.
    pub fn utility_fn(&mut self, f: M::Score, params: Vec<Param>) -> (r: &mut MethodBuilder<M>)
        ensures
            r.declared@ == old(self).declared@ + params@,
            *r == (MethodBuilder {
                utility: Some(ScoreFn::Dynamic(f)),
                declared: r.declared,
                ..*old(self)
            }),
            *final(self) == *final(r),
    {
        append_params(&mut self.declared, &params);
        self.utility = Some(ScoreFn::Dynamic(f));
        self
    }

    /// Adds a precondition for the branch to be chosen.
    pub fn precondition(&mut self, p: CheckDecl<M>) -> (r: &mut MethodBuilder<M>)
        ensures
            r.preconditions@ == old(self).preconditions@.push(p),
            r.declared@ == old(self).declared@ + p.params@,
            *r == (MethodBuilder {
                preconditions: r.preconditions,
                declared: r.declared,
                ..*old(self)
            }),
            *final(self) == *final(r),
    {
        append_params(&mut self.declared, &p.params);
        self.preconditions.push(p);
        self
    }

    /// Appends a member that runs after every member declared before it.
    pub fn then_task(&mut self, task: u64, name: Ustr) -> (r: &mut MethodBuilder<M>)
        ensures
            r.subtasks@ == old(self).subtasks@.push(MemberDecl { task, name, chained: true }),
            *r == (MethodBuilder { subtasks: r.subtasks, ..*old(self) }),
            *final(self) == *final(r),
    {
        self.subtasks.push(MemberDecl { task, name, chained: true });
        self
    }

    /// Adds a member with no ordering commitment relative to other unordered
    /// members; it still runs after every chained member declared before it.
    pub fn subtask(&mut self, task: u64, name: Ustr) -> (h: SubtaskHandle)
        requires
            old(self).subtasks@.len() <= u32::MAX,
        ensures
            h.pos == old(self).subtasks@.len(),
            final(self).subtasks@ == old(self).subtasks@.push(
                MemberDecl { task, name, chained: false },
            ),
            *final(self) == (MethodBuilder {
                subtasks: final(self).subtasks,
                unordered: true,
                ..*old(self)
            }),
    {
        let pos: u32 = self.subtasks.len() as u32;
        self.subtasks.push(MemberDecl { task, name, chained: false });
        self.unordered = true;
        SubtaskHandle { pos }
    }

    /// Requires that `before` completes before `after` starts.
    pub fn before(&mut self, before: SubtaskHandle, after: SubtaskHandle) -> (r: &mut MethodBuilder<
        M,
    >)
        ensures
            r.edges@ == old(self).edges@.push((before.pos, after.pos)),
            *r == (MethodBuilder { edges: r.edges, ..*old(self) }),
            *final(self) == *final(r),
    {
        self.edges.push((before.pos, after.pos));
        self
    }

    /// Adds members that may run in any order, each exactly once.
    pub fn any_order(&mut self, tasks: &Vec<(u64, Ustr)>) -> (r: &mut MethodBuilder<M>)
        ensures
            r.subtasks@ == old(self).subtasks@ + Seq::new(
                tasks@.len(),
                |i: int| MemberDecl { task: tasks@[i].0, name: tasks@[i].1, chained: false },
            ),
            r.unordered == (old(self).unordered || tasks@.len() > 0),
            *r == (MethodBuilder { subtasks: r.subtasks, unordered: r.unordered, ..*old(self) }),
            *final(self) == *final(r),
    {
        let ghost before = *self;
        for i in 0..tasks.len()
            invariant
                self.subtasks@ == before.subtasks@ + Seq::new(
                    i as nat,
                    |k: int| MemberDecl { task: tasks@[k].0, name: tasks@[k].1, chained: false },
                ),
                self.unordered == (before.unordered || i > 0),
                *self == (MethodBuilder {
                    subtasks: self.subtasks,
                    unordered: self.unordered,
                    ..before
                }),
        {
            let (task, name) = tasks[i];
            self.subtasks.push(MemberDecl { task, name, chained: false });
            self.unordered = true;
            assert(self.subtasks@ =~= before.subtasks@ + Seq::new(
                (i + 1) as nat,
                |k: int| MemberDecl { task: tasks@[k].0, name: tasks@[k].1, chained: false },
            ));
        }
        self
    }

    /// Declares a pause marker behind the members declared so far: the plan is
    /// truncated there.
    pub fn pause_plan(&mut self) -> (r: &mut MethodBuilder<M>)
        requires
            old(self).subtasks@.len() <= u32::MAX,
        ensures
            r.pause_positions@ == old(self).pause_positions@.push(old(self).subtasks@.len() as u32),
            *r == (MethodBuilder { pause_positions: r.pause_positions, ..*old(self) }),
            *final(self) == *final(r),
    {
        let pos: u32 = self.subtasks.len() as u32;
        self.pause_positions.push(pos);
        self
    }
}

impl<M: PlanModel> GoalBuilder<M> {
    /// A goal without desired effects.
    pub fn new() -> (b: GoalBuilder<M>)
        ensures
            b.effects@.len() == 0,
    {
        GoalBuilder { effects: Vec::new() }
    }

    /// Adds one desired effect.
    pub fn effect(&mut self, e: EffectDecl<M>) -> (r: &mut GoalBuilder<M>)
        ensures
            r.effects@ == old(self).effects@.push(e),
            *final(self) == *final(r),
    {
        self.effects.push(e);
        self
    }
}

} // verus!
