//! Bake-time inferred summaries of tasks and methods.
//!
//! Compound tasks declare no preconditions or effects of their own: how they
//! interact with the state is implicit in their decomposition tree. For every
//! task a state-independent summary is inferred over component slots:
//!
//! - **required fields**: every refinement touches the slot, and reads it
//!   first;
//! - **possible writes**: some refinement writes the slot;
//! - **guaranteed writes**: every refinement writes the slot;
//!
//! together with the length and cost of the shortest and cheapest refinements
//! and how the task recurs. All of it is a fixpoint over the decomposition
//! graph, stated by stages: what holds of refinements of bounded depth.

use crate::domain::{CompoundTask, HtnDomain, Method, PrimitiveTask, Task};
use crate::model::{some_writes, Effect, PlanModel, Precondition, ScoreFn};
use crate::state::FieldSet;
use vstd::prelude::*;

verus! {

/// The inferred, state-independent summary of one task.
#[derive(Debug)]
pub struct TaskSummary {
    /// Components every refinement reads before any refinement writes them.
    pub required_fields: FieldSet,
    /// Components some refinement writes (over-approximation).
    pub possible_writes: FieldSet,
    /// Components every refinement writes (under-approximation).
    pub guaranteed_writes: FieldSet,
    /// Whether the task has at least one finite refinement.
    pub terminating: bool,
    /// Length of the shortest primitive sequence some refinement produces
    /// (`usize::MAX` where there is none, or none that short).
    pub min_yield: usize,
    /// Total constant primitive cost of the cheapest refinement (`u64::MAX`
    /// where there is none, or none that cheap). Dynamic costs count zero.
    pub min_cost: u64,
    /// Whether the task can (transitively) decompose into itself.
    pub recursive: bool,
    /// Whether the task can appear at a non-last position of its own refinement
    /// (right-generating): non-tail recursion.
    pub self_embedding: bool,
    /// Whether the task can appear with material on both sides of itself in its
    /// own refinement (left- and right-generating).
    pub tail_recursive: bool,
}

/// A method as the analysis sees it.
#[verifier::ext_equal]
pub struct MethodShape {
    /// Its members.
    pub members: Seq<u32>,
    /// Whether they are a partially-ordered set.
    pub partial: bool,
    /// The slots that its preconditions read.
    pub reads: Set<int>,
}

/// A task as the analysis sees it.
#[verifier::ext_equal]
pub struct TaskShape {
    /// Whether it is a compound task.
    pub compound: bool,
    /// Whether it is a primitive task.
    pub primitive: bool,
    /// The slots that its own preconditions read.
    pub reads: Set<int>,
    /// The slots that its own effects and expected effects write.
    pub writes: Set<int>,
    /// The slots that its own effects write.
    pub sure_writes: Set<int>,
    /// Its own constant cost.
    pub cost: u64,
    /// Its methods.
    pub methods: Seq<MethodShape>,
}

/// A decomposition graph.
pub type Network = Seq<TaskShape>;

/// The slots that a list of preconditions reads.
pub open spec fn reads_of<M: PlanModel>(ps: Seq<Precondition<M>>) -> Set<int> {
    Set::new(
        |f: int|
            exists|i: int, j: int|
                0 <= i < ps.len() && 0 <= j < ps[i].reads@.len() && #[trigger] ps[i].reads@[j] == f,
    )
}

/// A primitive's cost where it is constant; dynamic costs count zero.
pub open spec fn static_cost<M: PlanModel>(p: PrimitiveTask<M>) -> u64 {
    match p.cost {
        Some(ScoreFn::Constant(c)) => if c <= 0 {
            0
        } else {
            c as u64
        },
        _ => 0,
    }
}

/// A method as the analysis sees it.
pub open spec fn method_shape<M: PlanModel>(m: Method<M>) -> MethodShape {
    MethodShape {
        members: m.subtasks@,
        partial: m.order is Partial,
        reads: reads_of(m.preconditions@),
    }
}

/// A task as the analysis sees it.
pub open spec fn task_shape<M: PlanModel>(t: Task<M>) -> TaskShape {
    match t {
        Task::Primitive(p) => TaskShape {
            compound: false,
            primitive: true,
            reads: reads_of(p.preconditions@),
            writes: Set::new(
                |f: int| some_writes(p.effects@, f) || some_writes(p.expected_effects@, f),
            ),
            sure_writes: Set::new(|f: int| some_writes(p.effects@, f)),
            cost: static_cost(p),
            methods: Seq::empty(),
        },
        Task::Compound(c) => TaskShape {
            compound: true,
            primitive: false,
            reads: Set::empty(),
            writes: Set::empty(),
            sure_writes: Set::empty(),
            cost: 0,
            methods: Seq::new(c.methods@.len(), |i: int| method_shape(c.methods@[i])),
        },
        Task::Goal(g) => TaskShape {
            compound: false,
            primitive: false,
            reads: Set::empty(),
            writes: Set::empty(),
            sure_writes: Set::empty(),
            cost: 0,
            methods: Seq::empty(),
        },
    }
}

/// A domain's decomposition graph.
pub open spec fn network<M: PlanModel>(d: HtnDomain<M>) -> Network {
    Seq::new(d.tasks@.len(), |i: int| task_shape(d.tasks@[i]))
}

/// Whether every member is a node of the graph.
pub open spec fn closed_network(net: Network) -> bool {
    forall|t: int, i: int, k: int|
        0 <= t < net.len() && 0 <= i < net[t].methods.len() && 0 <= k
            < net[t].methods[i].members.len() ==> (#[trigger] net[t].methods[i].members[k])
            < net.len()
}

/// How what holds of a method's members decides what holds of its task.
#[derive(Clone, Copy, PartialEq, Eq, Structural, Debug)]
pub enum ClosureRule {
    /// All members of some method.
    SomeMethodAll,
    /// Some member of some method.
    SomeMethodSome,
    /// Some member of every method, where there is a method.
    EveryMethodSome,
}

/// Whether a rule carries `v` from the members of a task's methods to the task.
pub open spec fn rule_holds(rule: ClosureRule, t: TaskShape, v: spec_fn(int) -> bool) -> bool {
    match rule {
        ClosureRule::SomeMethodAll => exists|i: int|
            0 <= i < t.methods.len() && all_members(#[trigger] t.methods[i], v),
        ClosureRule::SomeMethodSome => exists|i: int|
            0 <= i < t.methods.len() && some_member(#[trigger] t.methods[i], v),
        ClosureRule::EveryMethodSome => t.methods.len() > 0 && forall|i: int|
            0 <= i < t.methods.len() ==> some_member(#[trigger] t.methods[i], v),
    }
}

/// Whether `v` holds of every member of a method.
pub open spec fn all_members(m: MethodShape, v: spec_fn(int) -> bool) -> bool {
    forall|k: int| 0 <= k < m.members.len() ==> v(#[trigger] m.members[k] as int)
}

/// Whether `v` holds of some member of a method.
pub open spec fn some_member(m: MethodShape, v: spec_fn(int) -> bool) -> bool {
    exists|k: int| 0 <= k < m.members.len() && v(#[trigger] m.members[k] as int)
}

/// Whether a property of leaf tasks, carried by a rule, holds of task `t` by
/// decomposition trees of depth at most `h`.
pub open spec fn stage(
    net: Network,
    rule: ClosureRule,
    base: spec_fn(int) -> bool,
    t: int,
    h: nat,
) -> bool
    decreases h,
{
    if !net[t].compound {
        base(t)
    } else if h == 0 {
        false
    } else {
        rule_holds(rule, net[t], |u: int| stage(net, rule, base, u, (h - 1) as nat))
    }
}

/// Whether the property holds of task `t` at all.
pub open spec fn eventually(
    net: Network,
    rule: ClosureRule,
    base: spec_fn(int) -> bool,
    t: int,
) -> bool {
    exists|h: nat| stage(net, rule, base, t, h)
}

/// Whether a task has at least one finite refinement.
pub open spec fn terminates(net: Network, t: int) -> bool {
    eventually(net, ClosureRule::SomeMethodAll, |u: int| true, t)
}

/// Whether some refinement of a task writes slot `f`.
pub open spec fn can_write(net: Network, f: int, t: int) -> bool {
    eventually(net, ClosureRule::SomeMethodSome, |u: int| net[u].writes.contains(f), t)
}

/// Whether every refinement of a task writes slot `f`.
pub open spec fn must_write(net: Network, f: int, t: int) -> bool {
    eventually(net, ClosureRule::EveryMethodSome, |u: int| net[u].sure_writes.contains(f), t)
}

/// Whether some refinement of a task holds no primitive that reads or writes
/// slot `f`.
pub open spec fn can_avoid(net: Network, f: int, t: int) -> bool {
    eventually(
        net,
        ClosureRule::SomeMethodAll,
        |u: int| !net[u].reads.contains(f) && !net[u].writes.contains(f),
        t,
    )
}

proof fn lemma_rule_monotone(
    rule: ClosureRule,
    t: TaskShape,
    v: spec_fn(int) -> bool,
    w: spec_fn(int) -> bool,
)
    requires
        rule_holds(rule, t, v),
        forall|i: int, k: int|
            0 <= i < t.methods.len() && 0 <= k < t.methods[i].members.len() && v(
                #[trigger] t.methods[i].members[k] as int,
            ) ==> w(t.methods[i].members[k] as int),
    ensures
        rule_holds(rule, t, w),
{
    assert forall|i: int|
        0 <= i < t.methods.len() && some_member(#[trigger] t.methods[i], v) implies some_member(
        t.methods[i],
        w,
    ) by {
        let k = choose|k: int|
            0 <= k < t.methods[i].members.len() && v(#[trigger] t.methods[i].members[k] as int);
        assert(w(t.methods[i].members[k] as int));
    }
    match rule {
        ClosureRule::SomeMethodAll => {
            let i = choose|i: int|
                0 <= i < t.methods.len() && all_members(#[trigger] t.methods[i], v);
            assert(all_members(t.methods[i], w));
        },
        ClosureRule::SomeMethodSome => {
            let i = choose|i: int|
                0 <= i < t.methods.len() && some_member(#[trigger] t.methods[i], v);
            assert(some_member(t.methods[i], w));
        },
        ClosureRule::EveryMethodSome => {},
    }
}

proof fn lemma_stage_monotone(
    net: Network,
    rule: ClosureRule,
    base: spec_fn(int) -> bool,
    t: int,
    h: nat,
)
    requires
        stage(net, rule, base, t, h),
    ensures
        stage(net, rule, base, t, h + 1),
    decreases h,
{
    if net[t].compound {
        let v = |u: int| stage(net, rule, base, u, (h - 1) as nat);
        let w = |u: int| stage(net, rule, base, u, h);
        assert forall|i: int, k: int|
            0 <= i < net[t].methods.len() && 0 <= k < net[t].methods[i].members.len() && v(
                #[trigger] net[t].methods[i].members[k] as int,
            ) implies w(net[t].methods[i].members[k] as int) by {
            lemma_stage_monotone(
                net,
                rule,
                base,
                net[t].methods[i].members[k] as int,
                (h - 1) as nat,
            );
        }
        lemma_rule_monotone(rule, net[t], v, w);
    }
}

/// A set of tasks that is closed under a rule holds whatever the rule reaches.
proof fn lemma_closed_holds_all(
    net: Network,
    rule: ClosureRule,
    base: spec_fn(int) -> bool,
    val: Seq<bool>,
    t: int,
    h: nat,
)
    requires
        closed_network(net),
        val.len() == net.len(),
        forall|u: int| 0 <= u < net.len() && !(#[trigger] net[u]).compound && base(u) ==> val[u],
        forall|u: int|
            0 <= u < net.len() && (#[trigger] net[u]).compound && rule_holds(
                rule,
                net[u],
                |x: int| val[x],
            ) ==> val[u],
        0 <= t < net.len(),
        stage(net, rule, base, t, h),
    ensures
        val[t],
    decreases h,
{
    if net[t].compound {
        let v = |u: int| stage(net, rule, base, u, (h - 1) as nat);
        let w = |x: int| val[x];
        assert forall|i: int, k: int|
            0 <= i < net[t].methods.len() && 0 <= k < net[t].methods[i].members.len() && v(
                #[trigger] net[t].methods[i].members[k] as int,
            ) implies w(net[t].methods[i].members[k] as int) by {
            lemma_closed_holds_all(
                net,
                rule,
                base,
                val,
                net[t].methods[i].members[k] as int,
                (h - 1) as nat,
            );
        }
        lemma_rule_monotone(rule, net[t], v, w);
    }
}

/// The number of entries that do not hold.
spec fn misses(val: Seq<bool>) -> nat
    decreases val.len(),
{
    if val.len() == 0 {
        0
    } else {
        misses(val.drop_last()) + if val.last() {
            0nat
        } else {
            1nat
        }
    }
}

proof fn lemma_misses_update(val: Seq<bool>, i: int)
    requires
        0 <= i < val.len(),
        !val[i],
    ensures
        misses(val.update(i, true)) < misses(val),
    decreases val.len(),
{
    let after = val.update(i, true);
    if i == val.len() - 1 {
        assert(after.drop_last() =~= val.drop_last());
    } else {
        lemma_misses_update(val.drop_last(), i);
        assert(after.drop_last() =~= val.drop_last().update(i, true));
    }
}

/// Whether every member of a method has its flag set.
fn all_set<M: PlanModel>(m: &Method<M>, val: &Vec<bool>) -> (b: bool)
    requires
        forall|k: int| 0 <= k < m.subtasks@.len() ==> (#[trigger] m.subtasks@[k]) < val@.len(),
    ensures
        b == all_members(method_shape(*m), |x: int| val@[x]),
{
    for k in 0..m.subtasks.len()
        invariant
            forall|k: int| 0 <= k < m.subtasks@.len() ==> (#[trigger] m.subtasks@[k]) < val@.len(),
            forall|j: int| 0 <= j < k ==> val@[(#[trigger] m.subtasks@[j]) as int],
    {
        if !val[m.subtasks[k] as usize] {
            let ghost v = |x: int| val@[x];
            assert(!v(method_shape(*m).members[k as int] as int));
            return false;
        }
    }
    true
}

/// Whether some member of a method has its flag set.
fn any_set<M: PlanModel>(m: &Method<M>, val: &Vec<bool>) -> (b: bool)
    requires
        forall|k: int| 0 <= k < m.subtasks@.len() ==> (#[trigger] m.subtasks@[k]) < val@.len(),
    ensures
        b == some_member(method_shape(*m), |x: int| val@[x]),
{
    for k in 0..m.subtasks.len()
        invariant
            forall|k: int| 0 <= k < m.subtasks@.len() ==> (#[trigger] m.subtasks@[k]) < val@.len(),
            forall|j: int| 0 <= j < k ==> !val@[(#[trigger] m.subtasks@[j]) as int],
    {
        if val[m.subtasks[k] as usize] {
            let ghost v = |x: int| val@[x];
            assert(v(method_shape(*m).members[k as int] as int));
            return true;
        }
    }
    proof {
        let v = |x: int| val@[x];
        assert forall|k: int| 0 <= k < method_shape(*m).members.len() implies !v(
            #[trigger] method_shape(*m).members[k] as int,
        ) by {
            assert(!val@[m.subtasks@[k] as int]);
        }
    }
    false
}

/// Whether a rule carries the flags of the members to the task.
fn apply_rule<M: PlanModel>(rule: ClosureRule, c: &CompoundTask<M>, val: &Vec<bool>) -> (b: bool)
    requires
        forall|i: int, k: int|
            0 <= i < c.methods@.len() && 0 <= k < c.methods@[i].subtasks@.len() ==> (
            #[trigger] c.methods@[i].subtasks@[k]) < val@.len(),
    ensures
        b == rule_holds(rule, task_shape(Task::Compound(*c)), |x: int| val@[x]),
{
    let ghost shape = task_shape(Task::Compound(*c));
    let ghost v = |x: int| val@[x];
    match rule {
        ClosureRule::EveryMethodSome => {
            for i in 0..c.methods.len()
                invariant
                    forall|i: int, k: int|
                        0 <= i < c.methods@.len() && 0 <= k < c.methods@[i].subtasks@.len() ==> (
                        #[trigger] c.methods@[i].subtasks@[k]) < val@.len(),
                    shape == task_shape(Task::Compound(*c)),
                    v == (|x: int| val@[x]),
                    rule is EveryMethodSome,
                    forall|j: int| 0 <= j < i ==> some_member(#[trigger] shape.methods[j], v),
            {
                if !any_set(&c.methods[i], val) {
                    assert(!some_member(shape.methods[i as int], v));
                    return false;
                }
            }
            c.methods.len() > 0
        },
        _ => {
            for i in 0..c.methods.len()
                invariant
                    forall|i: int, k: int|
                        0 <= i < c.methods@.len() && 0 <= k < c.methods@[i].subtasks@.len() ==> (
                        #[trigger] c.methods@[i].subtasks@[k]) < val@.len(),
                    shape == task_shape(Task::Compound(*c)),
                    v == (|x: int| val@[x]),
                    rule is SomeMethodAll || rule is SomeMethodSome,
                    rule is SomeMethodAll ==> forall|j: int|
                        0 <= j < i ==> !all_members(#[trigger] shape.methods[j], v),
                    rule is SomeMethodSome ==> forall|j: int|
                        0 <= j < i ==> !some_member(#[trigger] shape.methods[j], v),
            {
                let hit = match rule {
                    ClosureRule::SomeMethodAll => all_set(&c.methods[i], val),
                    _ => any_set(&c.methods[i], val),
                };
                assert(shape.methods[i as int] == method_shape(c.methods@[i as int]));
                if hit {
                    return true;
                }
            }
            false
        },
    }
}

/// A well-formed domain's graph is closed.
proof fn lemma_network_closed<M: PlanModel>(d: HtnDomain<M>)
    requires
        d.wf(),
    ensures
        closed_network(network(d)),
{
    let net = network(d);
    assert forall|t: int, i: int, k: int|
        0 <= t < net.len() && 0 <= i < net[t].methods.len() && 0 <= k
            < net[t].methods[i].members.len() implies (#[trigger] net[t].methods[i].members[k])
        < net.len() by {
        assert(d.tasks@[t].wf(d.tasks@.len(), d.slots()));
        let c = d.tasks@[t]->Compound_0;
        assert(c.methods@[i].wf(d.tasks@.len(), d.slots()));
        assert(net[t].methods[i].members[k] == c.methods@[i].subtasks@[k]);
    }
}

/// The least set of tasks that holds the given leaf tasks and is closed under a
/// rule.
fn closure<M: PlanModel>(
    domain: &HtnDomain<M>,
    rule: ClosureRule,
    leaves: &Vec<bool>,
    Ghost(base): Ghost<spec_fn(int) -> bool>,
) -> (val: Vec<bool>)
    requires
        domain.wf(),
        leaves@.len() == domain.tasks@.len(),
        forall|t: int|
            0 <= t < leaves@.len() && !(#[trigger] network(*domain)[t]).compound ==> leaves@[t]
                == base(t),
    ensures
        val@.len() == domain.tasks@.len(),
        forall|t: int|
            0 <= t < val@.len() ==> (#[trigger] val@[t]) == eventually(
                network(*domain),
                rule,
                base,
                t,
            ),
{
    let ghost net = network(*domain);
    let n: usize = domain.tasks.len();
    let mut val: Vec<bool> = Vec::new();
    for t in 0..n
        invariant
            n == domain.tasks@.len() == leaves@.len(),
            val@.len() == t,
            forall|u: int|
                0 <= u < t ==> (#[trigger] val@[u]) == (!(domain.tasks@[u] is Compound)
                    && leaves@[u]),
    {
        let leaf = !domain.tasks[t].is_compound();
        val.push(leaf && leaves[t]);
    }
    let ghost mut h: nat = 0;
    proof {
        lemma_network_closed(*domain);
        assert forall|u: int| 0 <= u < n && val@[u] implies stage(net, rule, base, u, 0) by {
            assert(!net[u].compound);
        }
    }
    let mut changed = true;
    while changed
        invariant
            domain.wf(),
            n == domain.tasks@.len(),
            net == network(*domain),
            closed_network(net),
            val@.len() == n,
            leaves@.len() == n,
            forall|t: int|
                0 <= t < leaves@.len() && !(#[trigger] net[t]).compound ==> leaves@[t] == base(t),
            forall|u: int| 0 <= u < n && !(#[trigger] net[u]).compound && base(u) ==> val@[u],
            forall|u: int| 0 <= u < n && val@[u] ==> #[trigger] stage(net, rule, base, u, h),
            !changed ==> forall|u: int|
                0 <= u < n && (#[trigger] net[u]).compound && rule_holds(
                    rule,
                    net[u],
                    |x: int| val@[x],
                ) ==> val@[u],
        decreases misses(val@), if changed {
            1int
        } else {
            0
        },
    {
        changed = false;
        let ghost start = val@;
        for t in 0..n
            invariant
                domain.wf(),
                n == domain.tasks@.len(),
                net == network(*domain),
                closed_network(net),
                val@.len() == n,
                leaves@.len() == n,
                forall|t: int|
                    0 <= t < leaves@.len() && !(#[trigger] net[t]).compound ==> leaves@[t] == base(
                        t,
                    ),
                forall|u: int| 0 <= u < n && !(#[trigger] net[u]).compound && base(u) ==> val@[u],
                forall|u: int| 0 <= u < n && val@[u] ==> #[trigger] stage(net, rule, base, u, h),
                !changed ==> val@ == start,
                changed ==> misses(val@) < misses(start),
                !changed ==> forall|u: int|
                    0 <= u < t && (#[trigger] net[u]).compound && rule_holds(
                        rule,
                        net[u],
                        |x: int| val@[x],
                    ) ==> val@[u],
        {
            match &domain.tasks[t] {
                Task::Compound(c) => {
                    proof {
                        assert(domain.tasks@[t as int].wf(domain.tasks@.len(), domain.slots()));
                        assert forall|i: int, k: int|
                            0 <= i < c.methods@.len() && 0 <= k < c.methods@[i].subtasks@.len() implies (
                        #[trigger] c.methods@[i].subtasks@[k]) < val@.len() by {
                            assert(c.methods@[i].wf(domain.tasks@.len(), domain.slots()));
                        }
                        assert(net[t as int] == task_shape(Task::Compound(*c)));
                    }
                    if apply_rule(rule, c, &val) && !val[t] {
                        proof {
                            let v = |x: int| val@[x];
                            let w = |u: int| stage(net, rule, base, u, h);
                            assert forall|i: int, k: int|
                                0 <= i < net[t as int].methods.len() && 0 <= k
                                    < net[t as int].methods[i].members.len() && v(
                                    #[trigger] net[t as int].methods[i].members[k] as int,
                                ) implies w(net[t as int].methods[i].members[k] as int) by {
                                let u = net[t as int].methods[i].members[k] as int;
                                assert(val@[u]);
                                assert(stage(net, rule, base, u, h));
                            }
                            lemma_rule_monotone(rule, net[t as int], v, w);
                            assert(stage(net, rule, base, t as int, h + 1)) by {
                                assert(w =~= (|u: int| stage(
                                    net,
                                    rule,
                                    base,
                                    u,
                                    (h + 1 - 1) as nat,
                                )));
                            }
                            assert forall|u: int| 0 <= u < n && val@[u] implies #[trigger] stage(
                                net,
                                rule,
                                base,
                                u,
                                h + 1,
                            ) by {
                                lemma_stage_monotone(net, rule, base, u, h);
                            }
                            lemma_misses_update(val@, t as int);
                            h = h + 1;
                        }
                        val.set(t, true);
                        changed = true;
                    }
                },
                _ => {},
            }
        }
    }
    proof {
        assert forall|t: int| 0 <= t < val@.len() implies (#[trigger] val@[t]) == eventually(
            net,
            rule,
            base,
            t,
        ) by {
            if val@[t] {
                assert(stage(net, rule, base, t, h));
            }
            if eventually(net, rule, base, t) {
                let k = choose|k: nat| stage(net, rule, base, t, k);
                lemma_closed_holds_all(net, rule, base, val@, t, k);
            }
        }
    }
    val
}

/// `a` where it is below `cap`, and `cap` otherwise.
pub open spec fn at_most(cap: nat, a: nat) -> nat {
    if a < cap {
        a
    } else {
        cap
    }
}

/// The sum of `v` over the first `k` members of a method, capped.
pub open spec fn member_sum(m: MethodShape, v: Seq<nat>, cap: nat, k: nat) -> nat
    decreases k,
{
    if k == 0 {
        0
    } else {
        at_most(
            cap,
            member_sum(m, v, cap, (k - 1) as nat) + v[m.members[k - 1] as int],
        )
    }
}

/// The least member sum of the first `k` methods of a task.
pub open spec fn least_method(t: TaskShape, v: Seq<nat>, cap: nat, k: nat) -> nat
    decreases k,
{
    if k == 0 {
        cap
    } else {
        let before = least_method(t, v, cap, (k - 1) as nat);
        let m = t.methods[k - 1];
        let sum = member_sum(m, v, cap, m.members.len());
        if sum < before {
            sum
        } else {
            before
        }
    }
}

/// The least totals of leaf values over refinements of depth at most `h`, one per
/// task, capped.
pub open spec fn least_stage(net: Network, leaf: Seq<nat>, cap: nat, h: nat) -> Seq<nat>
    decreases h,
{
    if h == 0 {
        Seq::new(
            net.len(),
            |t: int|
                if net[t].compound {
                    cap
                } else {
                    leaf[t]
                },
        )
    } else {
        let below = least_stage(net, leaf, cap, (h - 1) as nat);
        Seq::new(
            net.len(),
            |t: int|
                if net[t].compound {
                    least_method(net[t], below, cap, net[t].methods.len())
                } else {
                    leaf[t]
                },
        )
    }
}

/// Whether `v` is the least total of leaf values over all refinements of a task,
/// capped: some refinement has it, and none has less.
pub open spec fn is_least(net: Network, leaf: Seq<nat>, cap: nat, t: int, v: nat) -> bool {
    &&& exists|h: nat| (#[trigger] least_stage(net, leaf, cap, h))[t] == v
    &&& forall|h: nat| v <= (#[trigger] least_stage(net, leaf, cap, h))[t]
}

proof fn lemma_member_sum_monotone(
    m: MethodShape,
    v: Seq<nat>,
    w: Seq<nat>,
    cap: nat,
    k: nat,
)
    requires
        k <= m.members.len(),
        forall|i: int|
            0 <= i < m.members.len() ==> v[#[trigger] m.members[i] as int] <= w[m.members[i] as int],
    ensures
        member_sum(m, v, cap, k) <= member_sum(m, w, cap, k),
    decreases k,
{
    if k > 0 {
        lemma_member_sum_monotone(m, v, w, cap, (k - 1) as nat);
        assert(v[m.members[k - 1] as int] <= w[m.members[k - 1] as int]);
    }
}

proof fn lemma_least_method_monotone(
    t: TaskShape,
    v: Seq<nat>,
    w: Seq<nat>,
    cap: nat,
    k: nat,
)
    requires
        k <= t.methods.len(),
        forall|i: int, j: int|
            0 <= i < t.methods.len() && 0 <= j < t.methods[i].members.len() ==> v[#[trigger] t.methods[i].members[j] as int] <= w[t.methods[i].members[j] as int],
    ensures
        least_method(t, v, cap, k) <= least_method(t, w, cap, k),
    decreases k,
{
    if k > 0 {
        lemma_least_method_monotone(t, v, w, cap, (k - 1) as nat);
        let m = t.methods[k - 1];
        assert forall|i: int| 0 <= i < m.members.len() implies v[#[trigger] m.members[i] as int]
            <= w[m.members[i] as int] by {
            assert(t.methods[k - 1].members[i] == m.members[i]);
        }
        lemma_member_sum_monotone(m, v, w, cap, m.members.len());
    }
}

proof fn lemma_least_method_cap(t: TaskShape, v: Seq<nat>, cap: nat, k: nat)
    ensures
        least_method(t, v, cap, k) <= cap,
    decreases k,
{
    if k > 0 {
        lemma_least_method_cap(t, v, cap, (k - 1) as nat);
    }
}

proof fn lemma_least_stage_antitone(net: Network, leaf: Seq<nat>, cap: nat, t: int, h: nat)
    requires
        closed_network(net),
        0 <= t < net.len(),
    ensures
        least_stage(net, leaf, cap, h + 1)[t] <= least_stage(net, leaf, cap, h)[t],
    decreases h,
{
    if net[t].compound {
        let w = least_stage(net, leaf, cap, h);
        if h == 0 {
            lemma_least_method_cap(net[t], w, cap, net[t].methods.len());
        } else {
            let v = least_stage(net, leaf, cap, (h - 1) as nat);
            assert forall|i: int, j: int|
                0 <= i < net[t].methods.len() && 0 <= j < net[t].methods[i].members.len() implies w[
            #[trigger] net[t].methods[i].members[j] as int] <= v[net[t].methods[i].members[j] as int] by {
                lemma_least_stage_antitone(
                    net,
                    leaf,
                    cap,
                    net[t].methods[i].members[j] as int,
                    (h - 1) as nat,
                );
            }
            lemma_least_method_monotone(net[t], w, v, cap, net[t].methods.len());
        }
    }
}

/// The values as numbers.
pub open spec fn numbers(val: Seq<u64>) -> Seq<nat> {
    Seq::new(val.len(), |i: int| val[i] as nat)
}

/// Values that no method can lower bound every refinement from below.
proof fn lemma_settled_below(
    net: Network,
    leaf: Seq<nat>,
    cap: nat,
    val: Seq<u64>,
    t: int,
    h: nat,
)
    requires
        closed_network(net),
        val.len() == net.len(),
        forall|u: int| 0 <= u < net.len() ==> (#[trigger] val[u]) <= cap,
        forall|u: int| 0 <= u < net.len() && !(#[trigger] net[u]).compound ==> val[u] == leaf[u],
        forall|u: int|
            0 <= u < net.len() && (#[trigger] net[u]).compound ==> val[u] <= least_method(
                net[u],
                numbers(val),
                cap,
                net[u].methods.len(),
            ),
        0 <= t < net.len(),
    ensures
        val[t] <= least_stage(net, leaf, cap, h)[t],
    decreases h,
{
    if net[t].compound && h > 0 {
        let v = numbers(val);
        let w = least_stage(net, leaf, cap, (h - 1) as nat);
        assert forall|i: int, j: int|
            0 <= i < net[t].methods.len() && 0 <= j < net[t].methods[i].members.len() implies v[
        #[trigger] net[t].methods[i].members[j] as int] <= w[net[t].methods[i].members[j] as int] by {
            lemma_settled_below(
                net,
                leaf,
                cap,
                val,
                net[t].methods[i].members[j] as int,
                (h - 1) as nat,
            );
        }
        lemma_least_method_monotone(net[t], v, w, cap, net[t].methods.len());
    }
}

/// The sum of all values.
spec fn total(val: Seq<u64>) -> nat
    decreases val.len(),
{
    if val.len() == 0 {
        0
    } else {
        total(val.drop_last()) + val.last() as nat
    }
}

proof fn lemma_total_update(val: Seq<u64>, i: int, v: u64)
    requires
        0 <= i < val.len(),
        v < val[i],
    ensures
        total(val.update(i, v)) < total(val),
    decreases val.len(),
{
    let after = val.update(i, v);
    if i == val.len() - 1 {
        assert(after.drop_last() =~= val.drop_last());
    } else {
        lemma_total_update(val.drop_last(), i, v);
        assert(after.drop_last() =~= val.drop_last().update(i, v));
    }
}

/// The capped sum of the members' values.
fn sum_members<M: PlanModel>(m: &Method<M>, val: &Vec<u64>, cap: u64) -> (sum: u64)
    requires
        forall|k: int| 0 <= k < m.subtasks@.len() ==> (#[trigger] m.subtasks@[k]) < val@.len(),
        forall|u: int| 0 <= u < val@.len() ==> (#[trigger] val@[u]) <= cap,
    ensures
        sum == member_sum(
            method_shape(*m),
            numbers(val@),
            cap as nat,
            m.subtasks@.len(),
        ),
        sum <= cap,
{
    let ghost shape = method_shape(*m);
    let ghost v = numbers(val@);
    let mut sum: u64 = 0;
    for k in 0..m.subtasks.len()
        invariant
            forall|k: int| 0 <= k < m.subtasks@.len() ==> (#[trigger] m.subtasks@[k]) < val@.len(),
            forall|u: int| 0 <= u < val@.len() ==> (#[trigger] val@[u]) <= cap,
            shape == method_shape(*m),
            v == numbers(val@),
            sum == member_sum(shape, v, cap as nat, k as nat),
            sum <= cap,
    {
        let x: u64 = val[m.subtasks[k] as usize];
        assert(v[shape.members[k as int] as int] == x);
        sum = if sum >= cap - x {
            cap
        } else {
            sum + x
        };
    }
    sum
}

/// Whether no method of a task comes to less than the task's bound, given the
/// bounds of its members.
pub open spec fn settled(net: Network, bounds: Seq<nat>, cap: nat) -> bool {
    forall|t: int|
        0 <= t < net.len() && (#[trigger] net[t]).compound ==> bounds[t] <= least_method(
            net[t],
            bounds,
            cap,
            net[t].methods.len(),
        )
}

/// The least total of leaf values over all refinements of every task, capped.
fn least_totals<M: PlanModel>(
    domain: &HtnDomain<M>,
    leaves: &Vec<u64>,
    cap: u64,
    Ghost(leaf): Ghost<Seq<nat>>,
) -> (val: Vec<u64>)
    requires
        domain.wf(),
        leaves@.len() == domain.tasks@.len(),
        forall|t: int|
            0 <= t < leaves@.len() && !(#[trigger] network(*domain)[t]).compound ==> leaves@[t]
                == leaf[t] && leaves@[t] <= cap,
    ensures
        val@.len() == domain.tasks@.len(),
        forall|t: int|
            0 <= t < val@.len() ==> (#[trigger] val@[t]) <= cap && is_least(
                network(*domain),
                leaf,
                cap as nat,
                t,
                val@[t] as nat,
            ),
        settled(network(*domain), numbers(val@), cap as nat),
{
    let ghost net = network(*domain);
    let n: usize = domain.tasks.len();
    let mut val: Vec<u64> = Vec::new();
    for t in 0..n
        invariant
            n == domain.tasks@.len() == leaves@.len(),
            val@.len() == t,
            forall|u: int|
                0 <= u < t ==> (#[trigger] val@[u]) == (if domain.tasks@[u] is Compound {
                    cap
                } else {
                    leaves@[u]
                }),
    {
        if domain.tasks[t].is_compound() {
            val.push(cap);
        } else {
            val.push(leaves[t]);
        }
    }
    let ghost mut h: nat = 0;
    proof {
        lemma_network_closed(*domain);
        assert forall|u: int| 0 <= u < n implies (#[trigger] val@[u]) <= cap by {
            assert(net[u].compound == (domain.tasks@[u] is Compound));
        }
    }
    let mut changed = true;
    while changed
        invariant
            domain.wf(),
            n == domain.tasks@.len(),
            net == network(*domain),
            closed_network(net),
            val@.len() == n,
            forall|u: int| 0 <= u < n ==> (#[trigger] val@[u]) <= cap,
            forall|u: int| 0 <= u < n && !(#[trigger] net[u]).compound ==> val@[u] == leaf[u],
            forall|u: int|
                0 <= u < n ==> (#[trigger] val@[u]) >= least_stage(net, leaf, cap as nat, h)[u],
            !changed ==> forall|u: int|
                0 <= u < n && (#[trigger] net[u]).compound ==> val@[u] <= least_method(
                    net[u],
                    numbers(val@),
                    cap as nat,
                    net[u].methods.len(),
                ),
        decreases total(val@), if changed {
            1int
        } else {
            0
        },
    {
        changed = false;
        let ghost start = val@;
        for t in 0..n
            invariant
                domain.wf(),
                n == domain.tasks@.len(),
                net == network(*domain),
                closed_network(net),
                val@.len() == n,
                forall|u: int| 0 <= u < n ==> (#[trigger] val@[u]) <= cap,
                forall|u: int| 0 <= u < n && !(#[trigger] net[u]).compound ==> val@[u] == leaf[u],
                forall|u: int|
                    0 <= u < n ==> (#[trigger] val@[u]) >= least_stage(net, leaf, cap as nat, h)[u],
                !changed ==> val@ == start,
                changed ==> total(val@) < total(start),
                !changed ==> forall|u: int|
                    0 <= u < t && (#[trigger] net[u]).compound ==> val@[u] <= least_method(
                        net[u],
                        numbers(val@),
                        cap as nat,
                        net[u].methods.len(),
                    ),
        {
            match &domain.tasks[t] {
                Task::Compound(c) => {
                    let ghost shape = net[t as int];
                    let ghost v = numbers(val@);
                    proof {
                        assert(domain.tasks@[t as int].wf(domain.tasks@.len(), domain.slots()));
                        assert(shape == task_shape(Task::Compound(*c)));
                    }
                    let mut best: u64 = cap;
                    for i in 0..c.methods.len()
                        invariant
                            c.wf(domain.tasks@.len(), domain.slots()),
                            n == domain.tasks@.len(),
                            val@.len() == n,
                            forall|u: int| 0 <= u < n ==> (#[trigger] val@[u]) <= cap,
                            shape == task_shape(Task::Compound(*c)),
                            v == numbers(val@),
                            best == least_method(shape, v, cap as nat, i as nat),
                    {
                        assert(c.methods@[i as int].wf(domain.tasks@.len(), domain.slots()));
                        assert(shape.methods[i as int] == method_shape(c.methods@[i as int]));
                        let sum: u64 = sum_members(&c.methods[i], &val, cap);
                        if sum < best {
                            best = sum;
                        }
                    }
                    if best < val[t] {
                        proof {
                            let w = least_stage(net, leaf, cap as nat, h);
                            assert forall|i: int, j: int|
                                0 <= i < shape.methods.len() && 0 <= j
                                    < shape.methods[i].members.len() implies w[#[trigger] shape.methods[i].members[j] as int] <= v[shape.methods[i].members[j] as int] by {
                                assert(net[t as int].methods[i].members[j] < net.len());
                                assert(val@[shape.methods[i].members[j] as int] >= least_stage(net, leaf, cap as nat, h)[shape.methods[i].members[j] as int]);
                            }
                            lemma_least_method_monotone(shape, w, v, cap as nat, shape.methods.len());
                            assert(best >= least_stage(net, leaf, cap as nat, h + 1)[t as int]);
                            assert forall|u: int| 0 <= u < n implies (#[trigger] val@[u])
                                >= least_stage(net, leaf, cap as nat, h + 1)[u] by {
                                lemma_least_stage_antitone(net, leaf, cap as nat, u, h);
                            }
                            lemma_total_update(val@, t as int, best);
                            h = h + 1;
                        }
                        val.set(t, best);
                        changed = true;
                    }
                },
                _ => {},
            }
        }
    }
    proof {
        assert forall|t: int| 0 <= t < val@.len() implies (#[trigger] val@[t]) <= cap && is_least(
            net,
            leaf,
            cap as nat,
            t,
            val@[t] as nat,
        ) by {
            assert forall|k: nat| val@[t] <= (#[trigger] least_stage(net, leaf, cap as nat, k))[t] by {
                lemma_settled_below(net, leaf, cap as nat, val@, t, k);
            }
            assert(least_stage(net, leaf, cap as nat, h)[t] == val@[t]);
        }
    }
    val
}

/// Whether the first touch of slot `f` by a totally-ordered method's members,
/// from the `k`-th on, is a read: members that can avoid the slot and never write
/// it are skipped.
pub open spec fn leads_with_read(
    net: Network,
    f: int,
    m: MethodShape,
    v: Seq<bool>,
    k: nat,
) -> bool
    decreases m.members.len() - k,
{
    k < m.members.len() && (v[m.members[k as int] as int] || (can_avoid(
        net,
        f,
        m.members[k as int] as int,
    ) && !can_write(net, f, m.members[k as int] as int) && leads_with_read(net, f, m, v, k + 1)))
}

/// Whether every refinement through a method first touches slot `f` with a read.
pub open spec fn method_reads_first(
    net: Network,
    f: int,
    m: MethodShape,
    v: Seq<bool>,
) -> bool {
    m.reads.contains(f) || if m.partial {
        (exists|k: int| 0 <= k < m.members.len() && v[#[trigger] m.members[k] as int])
            && forall|k: int|
            0 <= k < m.members.len() ==> !can_write(net, f, #[trigger] m.members[k] as int)
    } else {
        leads_with_read(net, f, m, v, 0)
    }
}

/// One round of the required-slot analysis: what `v` says of the members decides
/// the task.
pub open spec fn read_step(net: Network, f: int, t: int, v: Seq<bool>) -> bool {
    &&& terminates(net, t)
    &&& !can_avoid(net, f, t)
    &&& forall|i: int|
        0 <= i < net[t].methods.len() ==> method_reads_first(
            net,
            f,
            #[trigger] net[t].methods[i],
            v,
        )
}

/// Per task, whether every refinement of depth at most `h` first touches slot `f`
/// with a read, taking deeper ones for granted.
pub open spec fn reads_stage(net: Network, f: int, h: nat) -> Seq<bool>
    decreases h,
{
    if h == 0 {
        Seq::new(net.len(), |t: int| net[t].primitive ==> net[t].reads.contains(f))
    } else {
        let below = reads_stage(net, f, (h - 1) as nat);
        Seq::new(
            net.len(),
            |t: int|
                if net[t].compound {
                    read_step(net, f, t, below)
                } else {
                    net[t].primitive ==> net[t].reads.contains(f)
                },
        )
    }
}

/// Whether slot `f` is required: every refinement of the task first touches it
/// with a read.
pub open spec fn required(net: Network, f: int, t: int) -> bool {
    forall|h: nat| (#[trigger] reads_stage(net, f, h))[t]
}

proof fn lemma_leads_monotone(
    net: Network,
    f: int,
    m: MethodShape,
    v: Seq<bool>,
    w: Seq<bool>,
    k: nat,
)
    requires
        leads_with_read(net, f, m, v, k),
        forall|i: int|
            0 <= i < m.members.len() && v[#[trigger] m.members[i] as int] ==> w[m.members[i] as int],
    ensures
        leads_with_read(net, f, m, w, k),
    decreases m.members.len() - k,
{
    if !v[m.members[k as int] as int] {
        lemma_leads_monotone(net, f, m, v, w, k + 1);
    }
}

proof fn lemma_read_step_monotone(
    net: Network,
    f: int,
    t: int,
    v: Seq<bool>,
    w: Seq<bool>,
)
    requires
        read_step(net, f, t, v),
        forall|i: int, k: int|
            0 <= i < net[t].methods.len() && 0 <= k < net[t].methods[i].members.len() && v[#[trigger] net[t].methods[i].members[k] as int] ==> w[net[t].methods[i].members[k] as int],
    ensures
        read_step(net, f, t, w),
{
    assert forall|i: int| 0 <= i < net[t].methods.len() implies method_reads_first(
        net,
        f,
        #[trigger] net[t].methods[i],
        w,
    ) by {
        let m = net[t].methods[i];
        assert(method_reads_first(net, f, m, v));
        assert forall|k: int|
            0 <= k < m.members.len() && v[#[trigger] m.members[k] as int] implies w[m.members[k] as int] by {
            assert(net[t].methods[i].members[k] == m.members[k]);
        }
        if !m.reads.contains(f) {
            if m.partial {
                let k = choose|k: int|
                    0 <= k < m.members.len() && v[#[trigger] m.members[k] as int];
                assert(w[m.members[k] as int]);
            } else {
                lemma_leads_monotone(net, f, m, v, w, 0);
            }
        }
    }
}

/// The number of entries that hold.
spec fn hits(val: Seq<bool>) -> nat
    decreases val.len(),
{
    if val.len() == 0 {
        0
    } else {
        hits(val.drop_last()) + if val.last() {
            1nat
        } else {
            0nat
        }
    }
}

proof fn lemma_hits_update(val: Seq<bool>, i: int)
    requires
        0 <= i < val.len(),
        val[i],
    ensures
        hits(val.update(i, false)) < hits(val),
    decreases val.len(),
{
    let after = val.update(i, false);
    if i == val.len() - 1 {
        assert(after.drop_last() =~= val.drop_last());
    } else {
        lemma_hits_update(val.drop_last(), i);
        assert(after.drop_last() =~= val.drop_last().update(i, false));
    }
}

/// Whether some precondition of a list reads slot `f`.
fn any_reads<M: PlanModel>(ps: &Vec<Precondition<M>>, f: usize) -> (b: bool)
    ensures
        b == reads_of(ps@).contains(f as int),
{
    for i in 0..ps.len()
        invariant
            forall|k: int, j: int|
                0 <= k < i && 0 <= j < ps@[k].reads@.len() ==> #[trigger] ps@[k].reads@[j] != f,
    {
        let reads = &ps[i].reads;
        for j in 0..reads.len()
            invariant
                i < ps@.len(),
                *reads == ps@[i as int].reads,
                forall|q: int| 0 <= q < j ==> #[trigger] ps@[i as int].reads@[q] != f,
        {
            if reads[j] == f {
                assert(ps@[i as int].reads@[j as int] == f as int);
                return true;
            }
        }
    }
    false
}

/// Whether some effect of a list writes slot `f`.
fn any_writes<M: PlanModel>(es: &Vec<Effect<M>>, f: usize) -> (b: bool)
    ensures
        b == some_writes(es@, f as int),
{
    for i in 0..es.len()
        invariant
            forall|k: int, j: int|
                0 <= k < i && 0 <= j < es@[k].writes@.len() ==> #[trigger] es@[k].writes@[j] != f,
    {
        let writes = &es[i].writes;
        for j in 0..writes.len()
            invariant
                i < es@.len(),
                *writes == es@[i as int].writes,
                forall|q: int| 0 <= q < j ==> #[trigger] es@[i as int].writes@[q] != f,
        {
            if writes[j] == f {
                assert(es@[i as int].writes@[j as int] == f as int);
                return true;
            }
        }
    }
    false
}

/// Whether every refinement through a method first touches slot `f` with a read.
fn check_method_reads<M: PlanModel>(
    m: &Method<M>,
    f: usize,
    reads: &Vec<bool>,
    avoids: &Vec<bool>,
    writes: &Vec<bool>,
    Ghost(net): Ghost<Network>,
) -> (b: bool)
    requires
        reads@.len() == avoids@.len() == writes@.len() == net.len(),
        forall|k: int| 0 <= k < m.subtasks@.len() ==> (#[trigger] m.subtasks@[k]) < net.len(),
        forall|u: int| 0 <= u < net.len() ==> (#[trigger] avoids@[u]) == can_avoid(net, f as int, u),
        forall|u: int| 0 <= u < net.len() ==> (#[trigger] writes@[u]) == can_write(net, f as int, u),
    ensures
        b == method_reads_first(net, f as int, method_shape(*m), reads@),
{
    let ghost shape = method_shape(*m);
    let ghost v = reads@;
    if any_reads(&m.preconditions, f) {
        return true;
    }
    if m.order.is_partial() {
        if !any_set(m, reads) {
            return false;
        }
        for k in 0..m.subtasks.len()
            invariant
                shape == method_shape(*m),
                writes@.len() == net.len(),
                forall|k: int|
                    0 <= k < m.subtasks@.len() ==> (#[trigger] m.subtasks@[k]) < net.len(),
                forall|u: int|
                    0 <= u < net.len() ==> (#[trigger] writes@[u]) == can_write(
                        net,
                        f as int,
                        u,
                    ),
                forall|j: int|
                    0 <= j < k ==> !can_write(net, f as int, #[trigger] shape.members[j] as int),
                shape.partial,
                !shape.reads.contains(f as int),
        {
            if writes[m.subtasks[k] as usize] {
                assert(can_write(net, f as int, shape.members[k as int] as int));
                return false;
            }
        }
        return true;
    }
    let mut k: usize = 0;
    while k < m.subtasks.len()
        invariant
            k <= m.subtasks@.len(),
            shape == method_shape(*m),
            v == reads@,
            reads@.len() == avoids@.len() == writes@.len() == net.len(),
            forall|k: int| 0 <= k < m.subtasks@.len() ==> (#[trigger] m.subtasks@[k]) < net.len(),
            forall|u: int|
                0 <= u < net.len() ==> (#[trigger] avoids@[u]) == can_avoid(net, f as int, u),
            forall|u: int|
                0 <= u < net.len() ==> (#[trigger] writes@[u]) == can_write(net, f as int, u),
            leads_with_read(net, f as int, shape, v, 0) == leads_with_read(
                net,
                f as int,
                shape,
                v,
                k as nat,
            ),
            !shape.partial,
            !shape.reads.contains(f as int),
        decreases m.subtasks@.len() - k,
    {
        let j: usize = m.subtasks[k] as usize;
        assert(v[shape.members[k as int] as int] == reads@[j as int]);
        if reads[j] {
            return true;
        }
        if !avoids[j] || writes[j] {
            return false;
        }
        k = k + 1;
    }
    false
}

/// The tasks every refinement of which first touches slot `f` with a read.
fn required_by<M: PlanModel>(
    domain: &HtnDomain<M>,
    f: usize,
    ends: &Vec<bool>,
    avoids: &Vec<bool>,
    writes: &Vec<bool>,
) -> (val: Vec<bool>)
    requires
        domain.wf(),
        ends@.len() == avoids@.len() == writes@.len() == domain.tasks@.len(),
        forall|u: int|
            0 <= u < ends@.len() ==> (#[trigger] ends@[u]) == terminates(network(*domain), u),
        forall|u: int|
            0 <= u < avoids@.len() ==> (#[trigger] avoids@[u]) == can_avoid(
                network(*domain),
                f as int,
                u,
            ),
        forall|u: int|
            0 <= u < writes@.len() ==> (#[trigger] writes@[u]) == can_write(
                network(*domain),
                f as int,
                u,
            ),
    ensures
        val@.len() == domain.tasks@.len(),
        forall|t: int|
            0 <= t < val@.len() ==> (#[trigger] val@[t]) == required(
                network(*domain),
                f as int,
                t,
            ),
{
    let ghost net = network(*domain);
    let ghost fi = f as int;
    let n: usize = domain.tasks.len();
    let mut val: Vec<bool> = Vec::new();
    for t in 0..n
        invariant
            n == domain.tasks@.len(),
            net == network(*domain),
            val@.len() == t,
            forall|u: int|
                0 <= u < t ==> (#[trigger] val@[u]) == (net[u].primitive ==> net[u].reads.contains(
                    f as int,
                )),
    {
        let start = match &domain.tasks[t] {
            Task::Primitive(p) => any_reads(&p.preconditions, f),
            _ => true,
        };
        val.push(start);
    }
    let ghost mut h: nat = 0;
    proof {
        lemma_network_closed(*domain);
        assert forall|u: int| 0 <= u < net.len() && (#[trigger] net[u]).compound implies
            !net[u].primitive by {
            assert(net[u] == task_shape(domain.tasks@[u]));
        }
    }
    let mut changed = true;
    while changed
        invariant
            domain.wf(),
            n == domain.tasks@.len(),
            fi == f as int,
            net == network(*domain),
            closed_network(net),
            forall|u: int|
                0 <= u < net.len() && (#[trigger] net[u]).compound ==> !net[u].primitive,
            val@.len() == n,
            ends@.len() == avoids@.len() == writes@.len() == n,
            forall|u: int| 0 <= u < n ==> (#[trigger] ends@[u]) == terminates(net, u),
            forall|u: int| 0 <= u < n ==> (#[trigger] avoids@[u]) == can_avoid(net, fi, u),
            forall|u: int| 0 <= u < n ==> (#[trigger] writes@[u]) == can_write(net, fi, u),
            forall|u: int|
                0 <= u < n && !(#[trigger] net[u]).compound ==> val@[u] == (net[u].primitive
                    ==> net[u].reads.contains(fi)),
            forall|u: int| 0 <= u < n && !(#[trigger] val@[u]) ==> !reads_stage(net, fi, h)[u],
            forall|u: int|
                0 <= u < n && (#[trigger] net[u]).compound && read_step(net, fi, u, val@) ==> val@[u],
            !changed ==> forall|u: int|
                0 <= u < n && (#[trigger] net[u]).compound && val@[u] ==> read_step(net, fi, u, val@),
        decreases hits(val@), if changed {
            1int
        } else {
            0
        },
    {
        changed = false;
        let ghost start = val@;
        for t in 0..n
            invariant
                domain.wf(),
                n == domain.tasks@.len(),
                fi == f as int,
                net == network(*domain),
                closed_network(net),
                forall|u: int|
                    0 <= u < net.len() && (#[trigger] net[u]).compound ==> !net[u].primitive,
                val@.len() == n,
                ends@.len() == avoids@.len() == writes@.len() == n,
                forall|u: int| 0 <= u < n ==> (#[trigger] ends@[u]) == terminates(net, u),
                forall|u: int| 0 <= u < n ==> (#[trigger] avoids@[u]) == can_avoid(net, fi, u),
                forall|u: int| 0 <= u < n ==> (#[trigger] writes@[u]) == can_write(net, fi, u),
                forall|u: int|
                    0 <= u < n && !(#[trigger] net[u]).compound ==> val@[u] == (net[u].primitive
                        ==> net[u].reads.contains(fi)),
                forall|u: int| 0 <= u < n && !(#[trigger] val@[u]) ==> !reads_stage(net, fi, h)[u],
                forall|u: int|
                    0 <= u < n && (#[trigger] net[u]).compound && read_step(net, fi, u, val@) ==> val@[u],
                !changed ==> val@ == start,
                changed ==> hits(val@) < hits(start),
                !changed ==> forall|u: int|
                    0 <= u < t && (#[trigger] net[u]).compound && val@[u] ==> read_step(net, fi, u, val@),
        {
            match &domain.tasks[t] {
                Task::Compound(c) => {
                    let ghost v = val@;
                    proof {
                        assert(domain.tasks@[t as int].wf(domain.tasks@.len(), domain.slots()));
                        assert(net[t as int] == task_shape(Task::Compound(*c)));
                    }
                    let mut all = ends[t] && !avoids[t];
                    let ghost start_all = all;
                    let mut i: usize = 0;
                    while all && i < c.methods.len()
                        invariant
                            i <= c.methods@.len(),
                            c.wf(domain.tasks@.len(), domain.slots()),
                            n == domain.tasks@.len() == net.len(),
                            fi == f as int,
                            net[t as int] == task_shape(Task::Compound(*c)),
                            val@.len() == avoids@.len() == writes@.len() == n,
                            forall|u: int|
                                0 <= u < n ==> (#[trigger] avoids@[u]) == can_avoid(net, fi, u),
                            forall|u: int|
                                0 <= u < n ==> (#[trigger] writes@[u]) == can_write(net, fi, u),
                            v == val@,
                            all ==> forall|j: int|
                                0 <= j < i ==> method_reads_first(
                                    net,
                                    fi,
                                    #[trigger] net[t as int].methods[j],
                                    v,
                                ),
                            !all && start_all ==> exists|j: int|
                                0 <= j < net[t as int].methods.len() && !method_reads_first(
                                    net,
                                    fi,
                                    #[trigger] net[t as int].methods[j],
                                    v,
                                ),
                            all ==> start_all,
                        decreases c.methods@.len() - i, if all {
                            1int
                        } else {
                            0
                        },
                    {
                        assert(c.methods@[i as int].wf(domain.tasks@.len(), domain.slots()));
                        assert(net[t as int].methods[i as int] == method_shape(
                            c.methods@[i as int],
                        ));
                        if check_method_reads(&c.methods[i], f, &val, avoids, writes, Ghost(net)) {
                            i = i + 1;
                        } else {
                            all = false;
                        }
                    }
                    assert(all == read_step(net, fi, t as int, v));
                    if all != val[t] {
                        proof {
                            assert(val@[t as int] && !all);
                            let after = val@.update(t as int, false);
                            let w = after;
                            let deeper = reads_stage(net, fi, h);
                            // What the stage says of a member, the flags say too.
                            if read_step(net, fi, t as int, deeper) {
                                assert forall|i: int, k: int|
                                    0 <= i < net[t as int].methods.len() && 0 <= k
                                        < net[t as int].methods[i].members.len() && deeper[
                                    #[trigger] net[t as int].methods[i].members[k] as int] implies v[net[t as int].methods[i].members[k] as int] by {
                                    let u = net[t as int].methods[i].members[k] as int;
                                    assert(0 <= u < n);
                                    if !val@[u] {
                                        assert(!reads_stage(net, fi, h)[u]);
                                    }
                                }
                                lemma_read_step_monotone(net, fi, t as int, deeper, v);
                            }
                            assert(!reads_stage(net, fi, h + 1)[t as int]);
                            assert forall|u: int| 0 <= u < n && !(#[trigger] after[u]) implies
                                !reads_stage(net, fi, h + 1)[u] by {
                                if u != t && reads_stage(net, fi, h + 1)[u] {
                                    lemma_stage_down(net, fi, u, h);
                                }
                            }
                            assert forall|u: int|
                                0 <= u < n && (#[trigger] net[u]).compound && read_step(
                                    net,
                                    fi,
                                    u,
                                    w,
                                ) implies after[u] by {
                                assert forall|i: int, k: int|
                                    0 <= i < net[u].methods.len() && 0 <= k
                                        < net[u].methods[i].members.len() && w[#[trigger] net[u].methods[i].members[k] as int] implies v[net[u].methods[i].members[k] as int] by {
                                    let x = net[u].methods[i].members[k] as int;
                                    assert(0 <= x < n);
                                }
                                lemma_read_step_monotone(net, fi, u, w, v);
                            }
                            lemma_hits_update(val@, t as int);
                            h = h + 1;
                        }
                        val.set(t, false);
                        changed = true;
                    }
                },
                _ => {},
            }
        }
    }
    proof {
        assert forall|t: int| 0 <= t < val@.len() implies (#[trigger] val@[t]) == required(
            net,
            fi,
            t,
        ) by {
            if val@[t] {
                assert forall|k: nat| (#[trigger] reads_stage(net, fi, k))[t] by {
                    lemma_settled_reads(net, fi, val@, t, k);
                }
            } else {
                assert(!reads_stage(net, fi, h)[t]);
            }
        }
    }
    val
}

/// What holds at a stage holds at the stage before.
proof fn lemma_stage_down(net: Network, f: int, t: int, h: nat)
    requires
        closed_network(net),
        forall|u: int| 0 <= u < net.len() && (#[trigger] net[u]).compound ==> !net[u].primitive,
        0 <= t < net.len(),
        reads_stage(net, f, h + 1)[t],
    ensures
        reads_stage(net, f, h)[t],
    decreases h,
{
    if net[t].compound && h > 0 {
        let v = reads_stage(net, f, h);
        let w = reads_stage(net, f, (h - 1) as nat);
        assert(read_step(net, f, t, v));
        assert forall|i: int, k: int|
            0 <= i < net[t].methods.len() && 0 <= k < net[t].methods[i].members.len() && v[
            #[trigger] net[t].methods[i].members[k] as int] implies w[net[t].methods[i].members[k] as int] by {
            lemma_stage_down(net, f, net[t].methods[i].members[k] as int, (h - 1) as nat);
        }
        lemma_read_step_monotone(net, f, t, v, w);
    }
}

/// Flags that every round keeps hold at every stage.
proof fn lemma_settled_reads(net: Network, f: int, val: Seq<bool>, t: int, h: nat)
    requires
        closed_network(net),
        forall|u: int| 0 <= u < net.len() && (#[trigger] net[u]).compound ==> !net[u].primitive,
        val.len() == net.len(),
        forall|u: int|
            0 <= u < net.len() && !(#[trigger] net[u]).compound ==> val[u] == (net[u].primitive
                ==> net[u].reads.contains(f)),
        forall|u: int|
            0 <= u < net.len() && (#[trigger] net[u]).compound && val[u] ==> read_step(
                net,
                f,
                u,
                val,
            ),
        0 <= t < net.len(),
        val[t],
    ensures
        reads_stage(net, f, h)[t],
    decreases h,
{
    if net[t].compound && h > 0 {
        let w = reads_stage(net, f, (h - 1) as nat);
        assert forall|i: int, k: int|
            0 <= i < net[t].methods.len() && 0 <= k < net[t].methods[i].members.len() && val[
            #[trigger] net[t].methods[i].members[k] as int] implies w[net[t].methods[i].members[k] as int] by {
            lemma_settled_reads(
                net,
                f,
                val,
                net[t].methods[i].members[k] as int,
                (h - 1) as nat,
            );
        }
        lemma_read_step_monotone(net, f, t, val, w);
    }
}

/// Whether compound task `j` is a member of a method of compound task `i`.
pub open spec fn edge(net: Network, i: int, j: int) -> bool {
    &&& net[i].compound
    &&& net[j].compound
    &&& exists|m: int, k: int|
        0 <= m < net[i].methods.len() && 0 <= k < net[i].methods[m].members.len()
            && #[trigger] net[i].methods[m].members[k] == j
}

/// Whether task `j` can stand before other material in a method of task `i`.
pub open spec fn edge_not_last(net: Network, i: int, j: int) -> bool {
    &&& net[i].compound
    &&& net[j].compound
    &&& exists|m: int, k: int|
        0 <= m < net[i].methods.len() && 0 <= k < net[i].methods[m].members.len()
            && #[trigger] net[i].methods[m].members[k] == j && (net[i].methods[m].partial || k + 1
            != net[i].methods[m].members.len())
}

/// Whether task `j` can stand behind other material in a method of task `i`.
pub open spec fn edge_not_first(net: Network, i: int, j: int) -> bool {
    &&& net[i].compound
    &&& net[j].compound
    &&& exists|m: int, k: int|
        0 <= m < net[i].methods.len() && 0 <= k < net[i].methods[m].members.len()
            && #[trigger] net[i].methods[m].members[k] == j && (net[i].methods[m].partial || k != 0)
}

/// Whether task `j` is reached from task `i` over at most `h + 1` edges.
pub open spec fn reaches_in(net: Network, i: int, j: int, h: nat) -> bool
    decreases h,
{
    edge(net, i, j) || (h > 0 && exists|k: int|
        0 <= k < net.len() && reaches_in(net, i, k, (h - 1) as nat) && #[trigger] edge(net, k, j))
}

/// Whether task `i` can transitively decompose into task `j`.
pub open spec fn reaches(net: Network, i: int, j: int) -> bool {
    exists|h: nat| reaches_in(net, i, j, h)
}

/// Whether a task reaches itself with material behind it.
pub open spec fn right_generating(net: Network, t: int) -> bool {
    exists|j: int|
        0 <= j < net.len() && #[trigger] reaches(net, t, j) && edge_not_last(net, j, t)
}

/// Whether a task reaches itself with material before it.
pub open spec fn left_generating(net: Network, t: int) -> bool {
    exists|j: int|
        0 <= j < net.len() && #[trigger] reaches(net, t, j) && edge_not_first(net, j, t)
}

proof fn lemma_reaches_monotone(net: Network, i: int, j: int, h: nat)
    requires
        reaches_in(net, i, j, h),
    ensures
        reaches_in(net, i, j, h + 1),
    decreases h,
{
    if !edge(net, i, j) {
        let k = choose|k: int|
            0 <= k < net.len() && reaches_in(net, i, k, (h - 1) as nat) && #[trigger] edge(
                net,
                k,
                j,
            );
        lemma_reaches_monotone(net, i, k, (h - 1) as nat);
        assert(reaches_in(net, i, k, (h + 1 - 1) as nat));
    }
}

proof fn lemma_seen_all(net: Network, i: int, seen: Seq<bool>, j: int, h: nat)
    requires
        closed_network(net),
        seen.len() == net.len(),
        0 <= i < net.len(),
        0 <= j < net.len(),
        forall|u: int| 0 <= u < net.len() && #[trigger] edge(net, i, u) ==> seen[u],
        forall|k: int, u: int|
            0 <= k < net.len() && 0 <= u < net.len() && seen[k] && #[trigger] edge(net, k, u)
                ==> seen[u],
        reaches_in(net, i, j, h),
    ensures
        seen[j],
    decreases h,
{
    if !edge(net, i, j) {
        let k = choose|k: int|
            0 <= k < net.len() && reaches_in(net, i, k, (h - 1) as nat) && #[trigger] edge(
                net,
                k,
                j,
            );
        lemma_seen_all(net, i, seen, k, (h - 1) as nat);
    }
}

/// Sets the flags of the compound members of task `i`. Returns whether a flag
/// changed.
fn mark_members<M: PlanModel>(domain: &HtnDomain<M>, i: usize, seen: &mut Vec<bool>) -> (changed:
    bool)
    requires
        domain.wf(),
        i < domain.tasks@.len(),
        old(seen)@.len() == domain.tasks@.len(),
    ensures
        final(seen)@.len() == old(seen)@.len(),
        forall|u: int|
            0 <= u < final(seen)@.len() ==> (#[trigger] final(seen)@[u]) == (old(seen)@[u] || edge(
                network(*domain),
                i as int,
                u,
            )),
        !changed ==> final(seen)@ == old(seen)@,
        changed ==> misses(final(seen)@) < misses(old(seen)@),
{
    let ghost net = network(*domain);
    let ghost src = i as int;
    let mut changed = false;
    proof {
        lemma_network_closed(*domain);
    }
    match &domain.tasks[i] {
        Task::Compound(c) => {
            assert(net[src] == task_shape(Task::Compound(*c)));
            for m in 0..c.methods.len()
                invariant
                    domain.wf(),
                    net == network(*domain),
                    closed_network(net),
                    0 <= src < net.len(),
                    net[src] == task_shape(Task::Compound(*c)),
                    seen@.len() == old(seen)@.len() == net.len(),
                    !changed ==> seen@ == old(seen)@,
                    changed ==> misses(seen@) < misses(old(seen)@),
                    forall|u: int| 0 <= u < seen@.len() && old(seen)@[u] ==> #[trigger] seen@[u],
                    forall|u: int|
                        0 <= u < seen@.len() && (#[trigger] seen@[u]) ==> old(seen)@[u] || edge(
                            net,
                            src,
                            u,
                        ),
                    forall|q: int, k: int|
                        0 <= q < m && 0 <= k < net[src].methods[q].members.len()
                            && net[net[src].methods[q].members[k] as int].compound
                            ==> seen@[(#[trigger] net[src].methods[q].members[k]) as int],
            {
                let subtasks = &c.methods[m].subtasks;
                assert(net[src].methods[m as int] == method_shape(c.methods@[m as int]));
                for k in 0..subtasks.len()
                    invariant
                        domain.wf(),
                        net == network(*domain),
                        closed_network(net),
                        0 <= src < net.len(),
                        net[src] == task_shape(Task::Compound(*c)),
                        m < c.methods@.len(),
                        net[src].methods[m as int].members == subtasks@,
                        seen@.len() == old(seen)@.len() == net.len(),
                        !changed ==> seen@ == old(seen)@,
                        changed ==> misses(seen@) < misses(old(seen)@),
                        forall|u: int|
                            0 <= u < seen@.len() && old(seen)@[u] ==> #[trigger] seen@[u],
                        forall|u: int|
                            0 <= u < seen@.len() && (#[trigger] seen@[u]) ==> old(seen)@[u] || edge(
                                net,
                                src,
                                u,
                            ),
                        forall|q: int, k: int|
                            0 <= q < m && 0 <= k < net[src].methods[q].members.len()
                                && net[net[src].methods[q].members[k] as int].compound
                                ==> seen@[(#[trigger] net[src].methods[q].members[k]) as int],
                        forall|q: int|
                            0 <= q < k && net[subtasks@[q] as int].compound
                                ==> seen@[(#[trigger] subtasks@[q]) as int],
                {
                    assert(net[src].methods[m as int].members[k as int] < net.len());
                    let j: usize = subtasks[k] as usize;
                    assert(net[j as int].compound == (domain.tasks@[j as int] is Compound));
                    if domain.tasks[j].is_compound() && !seen[j] {
                        proof {
                            assert(net[src].methods[m as int].members[k as int] == j);
                            assert(edge(net, src, j as int));
                            lemma_misses_update(seen@, j as int);
                        }
                        seen.set(j, true);
                        changed = true;
                    }
                }
            }
            proof {
                assert forall|u: int| 0 <= u < seen@.len() implies (#[trigger] seen@[u]) == (old(
                    seen,
                )@[u] || edge(net, src, u)) by {
                    if edge(net, src, u) {
                        let (m, k) = choose|m: int, k: int|
                            0 <= m < net[src].methods.len() && 0 <= k
                                < net[src].methods[m].members.len()
                                && #[trigger] net[src].methods[m].members[k] == u;
                        assert(seen@[net[src].methods[m].members[k] as int]);
                    }
                }
            }
        },
        _ => {
            assert(!net[src].compound);
        },
    }
    changed
}

/// The tasks that task `i` can transitively decompose into.
fn reachable_from<M: PlanModel>(domain: &HtnDomain<M>, i: usize) -> (seen: Vec<bool>)
    requires
        domain.wf(),
        i < domain.tasks@.len(),
    ensures
        seen@.len() == domain.tasks@.len(),
        forall|j: int|
            0 <= j < seen@.len() ==> (#[trigger] seen@[j]) == reaches(
                network(*domain),
                i as int,
                j,
            ),
{
    let ghost net = network(*domain);
    let ghost src = i as int;
    let n: usize = domain.tasks.len();
    let mut seen: Vec<bool> = Vec::new();
    for t in 0..n
        invariant
            seen@.len() == t,
            forall|u: int| 0 <= u < t ==> !(#[trigger] seen@[u]),
    {
        seen.push(false);
    }
    let _ = mark_members(domain, i, &mut seen);
    let ghost mut h: nat = 0;
    proof {
        lemma_network_closed(*domain);
        assert forall|u: int| 0 <= u < n && #[trigger] seen@[u] implies reaches_in(net, src, u, 0) by {}
    }
    let mut changed = true;
    while changed
        invariant
            domain.wf(),
            n == domain.tasks@.len(),
            net == network(*domain),
            closed_network(net),
            0 <= src < n,
            seen@.len() == n,
            forall|u: int| 0 <= u < n && #[trigger] edge(net, src, u) ==> seen@[u],
            forall|u: int| 0 <= u < n && #[trigger] seen@[u] ==> reaches_in(net, src, u, h),
            !changed ==> forall|k: int, u: int|
                0 <= k < n && 0 <= u < n && seen@[k] && #[trigger] edge(net, k, u) ==> seen@[u],
        decreases misses(seen@), if changed {
            1int
        } else {
            0
        },
    {
        changed = false;
        let ghost start = seen@;
        for t in 0..n
            invariant
                domain.wf(),
                n == domain.tasks@.len(),
                net == network(*domain),
                closed_network(net),
                0 <= src < n,
                seen@.len() == n,
                forall|u: int| 0 <= u < n && #[trigger] edge(net, src, u) ==> seen@[u],
                forall|u: int| 0 <= u < n && #[trigger] seen@[u] ==> reaches_in(net, src, u, h),
                !changed ==> seen@ == start,
                changed ==> misses(seen@) < misses(start),
                !changed ==> forall|k: int, u: int|
                    0 <= k < t && 0 <= u < n && seen@[k] && #[trigger] edge(net, k, u) ==> seen@[u],
        {
            if seen[t] {
                let ghost before = seen@;
                let more = mark_members(domain, t, &mut seen);
                proof {
                    assert forall|u: int| 0 <= u < n && #[trigger] seen@[u] implies reaches_in(
                        net,
                        src,
                        u,
                        h + 1,
                    ) by {
                        if before[u] {
                            lemma_reaches_monotone(net, src, u, h);
                        } else {
                            assert(edge(net, t as int, u));
                            assert(before[t as int]);
                            assert(reaches_in(net, src, t as int, (h + 1 - 1) as nat));
                        }
                    }
                    h = h + 1;
                }
                if more {
                    changed = true;
                }
            }
        }
    }
    proof {
        assert forall|j: int| 0 <= j < seen@.len() implies (#[trigger] seen@[j]) == reaches(
            net,
            src,
            j,
        ) by {
            if seen@[j] {
                assert(reaches_in(net, src, j, h));
            }
            if reaches(net, src, j) {
                let k = choose|k: nat| reaches_in(net, src, j, k);
                lemma_seen_all(net, src, seen@, j, k);
            }
        }
    }
    seen
}

/// Whether task `t` stands in a method of compound task `j` with other material
/// before it (`front`) or behind it.
fn stands_beside<M: PlanModel>(domain: &HtnDomain<M>, j: usize, t: usize, front: bool) -> (b: bool)
    requires
        domain.wf(),
        j < domain.tasks@.len(),
        t < domain.tasks@.len(),
    ensures
        b == (if front {
            edge_not_first(network(*domain), j as int, t as int)
        } else {
            edge_not_last(network(*domain), j as int, t as int)
        }),
{
    let ghost net = network(*domain);
    let ghost src = j as int;
    assert(net[t as int].compound == (domain.tasks@[t as int] is Compound));
    if !domain.tasks[t].is_compound() {
        return false;
    }
    match &domain.tasks[j] {
        Task::Compound(c) => {
            assert(net[src] == task_shape(Task::Compound(*c)));
            for m in 0..c.methods.len()
                invariant
                    net[src] == task_shape(Task::Compound(*c)),
                    net[src].compound,
                    net[t as int].compound,
                    net == network(*domain),
                    src == j as int,
                    forall|q: int, k: int|
                        0 <= q < m && 0 <= k < net[src].methods[q].members.len()
                            && #[trigger] net[src].methods[q].members[k] == t
                            ==> !(net[src].methods[q].partial || if front {
                            k != 0
                        } else {
                            k + 1 != net[src].methods[q].members.len()
                        }),
            {
                let partial = c.methods[m].order.is_partial();
                let subtasks = &c.methods[m].subtasks;
                let len: usize = subtasks.len();
                assert(net[src].methods[m as int] == method_shape(c.methods@[m as int]));
                for k in 0..len
                    invariant
                        net[src] == task_shape(Task::Compound(*c)),
                        net[src].compound,
                        net[t as int].compound,
                        net == network(*domain),
                        src == j as int,
                        m < c.methods@.len(),
                        net[src].methods[m as int].members == subtasks@,
                        net[src].methods[m as int].partial == partial,
                        len == subtasks@.len(),
                        forall|q: int|
                            0 <= q < k && (#[trigger] subtasks@[q]) == t ==> !(partial || if front {
                                q != 0
                            } else {
                                q + 1 != len
                            }),
                {
                    if subtasks[k] as usize == t {
                        assert(net[src].methods[m as int].members[k as int] == t);
                        if partial || (front && k != 0) || (!front && k + 1 != len) {
                            return true;
                        }
                    }
                }
            }
            false
        },
        _ => {
            assert(!net[src].compound);
            false
        },
    }
}

/// Whether a summary is what its task's refinements come to.
pub open spec fn summarizes(s: TaskSummary, net: Network, nf: nat, t: int) -> bool {
    &&& s.required_fields.universe() == nf
    &&& s.possible_writes.universe() == nf
    &&& s.guaranteed_writes.universe() == nf
    &&& forall|f: int|
        #[trigger] s.required_fields.has(f) == (0 <= f < nf && required(net, f, t))
    &&& forall|f: int|
        #[trigger] s.possible_writes.has(f) == (0 <= f < nf && can_write(net, f, t))
    &&& forall|f: int|
        #[trigger] s.guaranteed_writes.has(f) == (0 <= f < nf && must_write(net, f, t))
    &&& s.terminating == terminates(net, t)
    &&& is_least(net, yields(net), usize::MAX as nat, t, s.min_yield as nat)
    &&& is_least(net, costs(net), u64::MAX as nat, t, s.min_cost as nat)
    &&& s.recursive == reaches(net, t, t)
    &&& s.self_embedding == right_generating(net, t)
    &&& s.tail_recursive == (left_generating(net, t) && right_generating(net, t))
}

/// The structure flags nest: a task with material on both sides of itself has
/// material behind itself, and such a task decomposes into itself.
pub proof fn structure_flags_nest(s: TaskSummary, net: Network, nf: nat, t: int)
    requires
        summarizes(s, net, nf, t),
    ensures
        s.tail_recursive ==> s.self_embedding,
        s.self_embedding ==> s.recursive,
{
    if right_generating(net, t) {
        let j = choose|j: int|
            0 <= j < net.len() && #[trigger] reaches(net, t, j) && edge_not_last(net, j, t);
        let h = choose|h: nat| reaches_in(net, t, j, h);
        let (m, k) = choose|m: int, k: int|
            0 <= m < net[j].methods.len() && 0 <= k < net[j].methods[m].members.len()
                && #[trigger] net[j].methods[m].members[k] == t && (net[j].methods[m].partial || k
                + 1 != net[j].methods[m].members.len());
        assert(net[j].methods[m].members[k] == t);
        assert(edge(net, j, t));
        assert(reaches_in(net, t, t, h + 1));
    }
}

/// What each leaf task yields: one step.
pub open spec fn yields(net: Network) -> Seq<nat> {
    Seq::new(net.len(), |t: int| 1nat)
}

/// What each leaf task costs.
pub open spec fn costs(net: Network) -> Seq<nat> {
    Seq::new(net.len(), |t: int| net[t].cost as nat)
}

/// Whether a method's baked facts are what its members' refinements come to.
pub open spec fn method_summarized<M: PlanModel>(
    m: Method<M>,
    net: Network,
    nf: nat,
    cost: Seq<nat>,
) -> bool {
    &&& m.possible_writes.universe() == nf
    &&& m.guaranteed_writes.universe() == nf
    &&& forall|f: int|
        #[trigger] m.possible_writes.has(f) == (0 <= f < nf && some_member(
            method_shape(m),
            |u: int| can_write(net, f, u),
        ))
    &&& forall|f: int|
        #[trigger] m.guaranteed_writes.has(f) == (0 <= f < nf && some_member(
            method_shape(m),
            |u: int| must_write(net, f, u),
        ))
    &&& m.min_cost == member_sum(method_shape(m), cost, u64::MAX as nat, m.subtasks@.len())
}

/// The yield bounds that a domain's summaries record.
pub open spec fn yield_bounds<M: PlanModel>(d: HtnDomain<M>) -> Seq<nat> {
    Seq::new(d.summaries@.len(), |t: int| d.summaries@[t].min_yield as nat)
}

/// The cost bounds that a domain's summaries record.
pub open spec fn cost_bounds<M: PlanModel>(d: HtnDomain<M>) -> Seq<nat> {
    Seq::new(d.summaries@.len(), |t: int| d.summaries@[t].min_cost as nat)
}

impl<M: PlanModel> HtnDomain<M> {
    /// Whether the domain's summaries and its methods' baked facts are what the
    /// decomposition graph comes to.
    pub open spec fn summarized(&self) -> bool {
        &&& self.summaries@.len() == self.tasks@.len()
        &&& forall|t: int|
            0 <= t < self.tasks@.len() ==> summarizes(
                #[trigger] self.summaries@[t],
                network(*self),
                self.slots(),
                t,
            )
        &&& forall|t: int, i: int|
            0 <= t < self.tasks@.len() && self.tasks@[t] is Compound && 0 <= i
                < self.tasks@[t]->Compound_0.methods@.len() ==> method_summarized(
                #[trigger] self.tasks@[t]->Compound_0.methods@[i],
                network(*self),
                self.slots(),
                cost_bounds(*self),
            )
        &&& settled(network(*self), yield_bounds(*self), usize::MAX as nat)
        &&& settled(network(*self), cost_bounds(*self), u64::MAX as nat)
    }
}

/// Whether two methods differ in nothing but their baked facts.
pub open spec fn same_method<M: PlanModel>(a: Method<M>, b: Method<M>) -> bool {
    b == (Method {
        possible_writes: b.possible_writes,
        guaranteed_writes: b.guaranteed_writes,
        min_cost: b.min_cost,
        ..a
    })
}

/// Whether two tasks differ in nothing but their methods' baked facts.
pub open spec fn same_task<M: PlanModel>(a: Task<M>, b: Task<M>) -> bool {
    match (a, b) {
        (Task::Compound(x), Task::Compound(y)) => {
            &&& y == (CompoundTask { methods: y.methods, ..x })
            &&& y.methods@.len() == x.methods@.len()
            &&& forall|i: int|
                0 <= i < x.methods@.len() ==> same_method(x.methods@[i], #[trigger] y.methods@[i])
        },
        _ => a == b,
    }
}

proof fn lemma_same_shape<M: PlanModel>(a: Task<M>, b: Task<M>)
    requires
        same_task(a, b),
    ensures
        task_shape(a) == task_shape(b),
{
    if a is Compound {
        let x = a->Compound_0;
        let y = b->Compound_0;
        assert forall|i: int| 0 <= i < x.methods@.len() implies method_shape(#[trigger] x.methods@[i])
            == method_shape(y.methods@[i]) by {
            assert(same_method(x.methods@[i], y.methods@[i]));
        }
        assert(task_shape(a).methods =~= task_shape(b).methods);
    }
}

/// The result of one analysis per slot, one flag per task.
spec fn table_ok(table: Seq<Vec<bool>>, n: nat, p: spec_fn(int, int) -> bool) -> bool {
    &&& forall|f: int| 0 <= f < table.len() ==> (#[trigger] table[f])@.len() == n
    &&& forall|f: int, t: int|
        0 <= f < table.len() && 0 <= t < n ==> (#[trigger] table[f]@[t]) == p(f, t)
}

proof fn lemma_table_push(
    table: Seq<Vec<bool>>,
    n: nat,
    p: spec_fn(int, int) -> bool,
    column: Vec<bool>,
)
    requires
        table_ok(table, n, p),
        column@.len() == n,
        forall|t: int| 0 <= t < n ==> (#[trigger] column@[t]) == p(table.len() as int, t),
    ensures
        table_ok(table.push(column), n, p),
{
    let longer = table.push(column);
    assert forall|f: int, t: int| 0 <= f < longer.len() && 0 <= t < n implies (
    #[trigger] longer[f]@[t]) == p(f, t) by {
        if f < table.len() {
            assert(longer[f] == table[f]);
        } else {
            assert(longer[f] == column);
        }
    }
}

/// The slots whose table has the flag of task `t` set.
fn row(table: &Vec<Vec<bool>>, nf: usize, t: usize, Ghost(n): Ghost<nat>, Ghost(p): Ghost<
    spec_fn(int, int) -> bool,
>) -> (s: FieldSet)
    requires
        table@.len() == nf,
        t < n,
        table_ok(table@, n, p),
    ensures
        s.universe() == nf,
        forall|f: int| #[trigger] s.has(f) == (0 <= f < nf && p(f, t as int)),
{
    let mut s = FieldSet::new(nf);
    for f in 0..nf
        invariant
            table@.len() == nf,
            t < n,
            table_ok(table@, n, p),
            s.universe() == nf,
            forall|g: int| #[trigger] s.has(g) == (0 <= g < f && p(g, t as int)),
    {
        assert(table@[f as int]@[t as int] == p(f as int, t as int));
        if table[f][t] {
            s.insert(f);
        }
    }
    s
}

/// The slots whose table has the flag of some member of a method set.
fn member_row<M: PlanModel>(
    table: &Vec<Vec<bool>>,
    nf: usize,
    m: &Method<M>,
    Ghost(n): Ghost<nat>,
    Ghost(p): Ghost<spec_fn(int, int) -> bool>,
) -> (s: FieldSet)
    requires
        table@.len() == nf,
        n > 0,
        table_ok(table@, n, p),
        forall|k: int| 0 <= k < m.subtasks@.len() ==> (#[trigger] m.subtasks@[k]) < n,
    ensures
        s.universe() == nf,
        forall|f: int|
            #[trigger] s.has(f) == (0 <= f < nf && some_member(
                method_shape(*m),
                |u: int| p(f, u),
            )),
{
    let mut s = FieldSet::new(nf);
    for f in 0..nf
        invariant
            table@.len() == nf,
            n > 0,
            table_ok(table@, n, p),
            forall|k: int| 0 <= k < m.subtasks@.len() ==> (#[trigger] m.subtasks@[k]) < n,
            s.universe() == nf,
            forall|g: int|
                #[trigger] s.has(g) == (0 <= g < f && some_member(
                    method_shape(*m),
                    |u: int| p(g, u),
                )),
    {
        assert(table@[f as int]@[0] == p(f as int, 0));
        let hit = any_set(m, &table[f]);
        proof {
            let shape = method_shape(*m);
            let v = |x: int| table@[f as int]@[x];
            let w = |u: int| p(f as int, u);
            assert forall|k: int| 0 <= k < shape.members.len() implies v(
                #[trigger] shape.members[k] as int,
            ) == w(shape.members[k] as int) by {
                assert(table@[f as int]@[m.subtasks@[k] as int] == p(
                    f as int,
                    m.subtasks@[k] as int,
                ));
            }
            if some_member(shape, v) {
                let k = choose|k: int|
                    0 <= k < shape.members.len() && v(#[trigger] shape.members[k] as int);
                assert(w(shape.members[k] as int));
            }
            if some_member(shape, w) {
                let k = choose|k: int|
                    0 <= k < shape.members.len() && w(#[trigger] shape.members[k] as int);
                assert(v(shape.members[k] as int));
            }
        }
        if hit {
            s.insert(f);
        }
    }
    s
}

/// Computes and stores the summaries of every task of a domain, and the baked
/// facts of every method.
pub fn compute_summaries<M: PlanModel>(domain: &mut HtnDomain<M>)
    requires
        old(domain).wf(),
    ensures
        final(domain).wf(),
        final(domain).baked(),
        final(domain).summarized(),
        final(domain).root == old(domain).root,
        final(domain).components == old(domain).components,
        final(domain).tasks@.len() == old(domain).tasks@.len(),
        forall|t: int|
            0 <= t < old(domain).tasks@.len() ==> same_task(
                old(domain).tasks@[t],
                #[trigger] final(domain).tasks@[t],
            ),
{
    let ghost net = network(*domain);
    let n: usize = domain.tasks.len();
    let nf: usize = domain.components.slots.len();

    // Leaf values: every leaf ends and yields one step.
    let mut ones: Vec<bool> = Vec::new();
    let mut steps: Vec<u64> = Vec::new();
    let mut prices: Vec<u64> = Vec::new();
    for t in 0..n
        invariant
            n == domain.tasks@.len(),
            net == network(*domain),
            *domain == *old(domain),
            ones@.len() == t,
            steps@.len() == t,
            prices@.len() == t,
            forall|u: int| 0 <= u < t ==> #[trigger] ones@[u],
            forall|u: int| 0 <= u < t ==> (#[trigger] steps@[u]) == 1,
            forall|u: int| 0 <= u < t ==> (#[trigger] prices@[u]) == net[u].cost,
    {
        ones.push(true);
        steps.push(1);
        let price: u64 = match &domain.tasks[t] {
            Task::Primitive(p) => match &p.cost {
                Some(ScoreFn::Constant(c)) => {
                    if *c <= 0 {
                        0
                    } else {
                        *c as u64
                    }
                },
                _ => 0,
            },
            _ => 0,
        };
        assert(net[t as int] == task_shape(domain.tasks@[t as int]));
        prices.push(price);
    }
    let ends = closure(domain, ClosureRule::SomeMethodAll, &ones, Ghost(|u: int| true));
    let min_yield = least_totals(domain, &steps, usize::MAX as u64, Ghost(yields(net)));
    let min_cost = least_totals(domain, &prices, u64::MAX, Ghost(costs(net)));

    // One analysis per slot.
    let mut writes: Vec<Vec<bool>> = Vec::new();
    let mut sure: Vec<Vec<bool>> = Vec::new();
    let mut needs: Vec<Vec<bool>> = Vec::new();
    let ghost p_write = |f: int, t: int| can_write(net, f, t);
    let ghost p_sure = |f: int, t: int| must_write(net, f, t);
    let ghost p_need = |f: int, t: int| required(net, f, t);
    for f in 0..nf
        invariant
            n == domain.tasks@.len(),
            net == network(*domain),
            *domain == *old(domain),
            domain.wf(),
            ends@.len() == n,
            forall|u: int| 0 <= u < n ==> (#[trigger] ends@[u]) == terminates(net, u),
            writes@.len() == f,
            sure@.len() == f,
            needs@.len() == f,
            p_write == (|f: int, t: int| can_write(net, f, t)),
            p_sure == (|f: int, t: int| must_write(net, f, t)),
            p_need == (|f: int, t: int| required(net, f, t)),
            table_ok(writes@, n as nat, p_write),
            table_ok(sure@, n as nat, p_sure),
            table_ok(needs@, n as nat, p_need),
    {
        let ghost slot = f as int;
        let mut touched: Vec<bool> = Vec::new();
        let mut written: Vec<bool> = Vec::new();
        let mut surely: Vec<bool> = Vec::new();
        for t in 0..n
            invariant
                n == domain.tasks@.len(),
                net == network(*domain),
                touched@.len() == t,
                written@.len() == t,
                surely@.len() == t,
                forall|u: int|
                    0 <= u < t ==> (#[trigger] touched@[u]) == (!net[u].reads.contains(f as int)
                        && !net[u].writes.contains(f as int)),
                forall|u: int|
                    0 <= u < t ==> (#[trigger] written@[u]) == net[u].writes.contains(f as int),
                forall|u: int|
                    0 <= u < t ==> (#[trigger] surely@[u]) == net[u].sure_writes.contains(f as int),
        {
            assert(net[t as int] == task_shape(domain.tasks@[t as int]));
            match &domain.tasks[t] {
                Task::Primitive(p) => {
                    let r = any_reads(&p.preconditions, f);
                    let e = any_writes(&p.effects, f);
                    let x = any_writes(&p.expected_effects, f);
                    touched.push(!r && !e && !x);
                    written.push(e || x);
                    surely.push(e);
                },
                _ => {
                    touched.push(true);
                    written.push(false);
                    surely.push(false);
                },
            }
        }
        let w = closure(
            domain,
            ClosureRule::SomeMethodSome,
            &written,
            Ghost(|u: int| net[u].writes.contains(slot)),
        );
        let g = closure(
            domain,
            ClosureRule::EveryMethodSome,
            &surely,
            Ghost(|u: int| net[u].sure_writes.contains(slot)),
        );
        let avoids = closure(
            domain,
            ClosureRule::SomeMethodAll,
            &touched,
            Ghost(
                |u: int| !net[u].reads.contains(slot) && !net[u].writes.contains(slot),
            ),
        );
        let r = required_by(domain, f, &ends, &avoids, &w);
        proof {
            assert forall|t: int| 0 <= t < n implies (#[trigger] w@[t]) == p_write(slot, t) by {}
            assert forall|t: int| 0 <= t < n implies (#[trigger] g@[t]) == p_sure(slot, t) by {}
            assert forall|t: int| 0 <= t < n implies (#[trigger] r@[t]) == p_need(slot, t) by {}
            lemma_table_push(writes@, n as nat, p_write, w);
            lemma_table_push(sure@, n as nat, p_sure, g);
            lemma_table_push(needs@, n as nat, p_need, r);
        }
        writes.push(w);
        sure.push(g);
        needs.push(r);
    }

    // The summaries.
    let mut summaries: Vec<TaskSummary> = Vec::new();
    for t in 0..n
        invariant
            n == domain.tasks@.len(),
            net == network(*domain),
            *domain == *old(domain),
            domain.wf(),
            nf == domain.slots(),
            ends@.len() == n,
            forall|u: int| 0 <= u < n ==> (#[trigger] ends@[u]) == terminates(net, u),
            min_yield@.len() == n,
            forall|u: int|
                0 <= u < n ==> (#[trigger] min_yield@[u]) <= usize::MAX && is_least(
                    net,
                    yields(net),
                    usize::MAX as nat,
                    u,
                    min_yield@[u] as nat,
                ),
            min_cost@.len() == n,
            forall|u: int|
                0 <= u < n ==> is_least(
                    net,
                    costs(net),
                    u64::MAX as nat,
                    u,
                    (#[trigger] min_cost@[u]) as nat,
                ),
            writes@.len() == nf,
            sure@.len() == nf,
            needs@.len() == nf,
            p_write == (|f: int, t: int| can_write(net, f, t)),
            p_sure == (|f: int, t: int| must_write(net, f, t)),
            p_need == (|f: int, t: int| required(net, f, t)),
            table_ok(writes@, n as nat, p_write),
            table_ok(sure@, n as nat, p_sure),
            table_ok(needs@, n as nat, p_need),
            summaries@.len() == t,
            forall|u: int|
                0 <= u < t ==> summarizes(#[trigger] summaries@[u], net, nf as nat, u)
                    && summaries@[u].min_cost == min_cost@[u] && summaries@[u].min_yield
                    == min_yield@[u],
    {
        let seen = reachable_from(domain, t);
        let mut right = false;
        let mut left = false;
        for j in 0..n
            invariant
                n == domain.tasks@.len(),
                net == network(*domain),
                domain.wf(),
                t < n,
                seen@.len() == n,
                forall|u: int| 0 <= u < n ==> (#[trigger] seen@[u]) == reaches(net, t as int, u),
                right ==> right_generating(net, t as int),
                left ==> left_generating(net, t as int),
                !right ==> forall|u: int|
                    0 <= u < j && #[trigger] reaches(net, t as int, u) ==> !edge_not_last(
                        net,
                        u,
                        t as int,
                    ),
                !left ==> forall|u: int|
                    0 <= u < j && #[trigger] reaches(net, t as int, u) ==> !edge_not_first(
                        net,
                        u,
                        t as int,
                    ),
        {
            assert(seen@[j as int] == reaches(net, t as int, j as int));
            if seen[j] {
                if stands_beside(domain, j, t, false) {
                    right = true;
                }
                if stands_beside(domain, j, t, true) {
                    left = true;
                }
            }
        }
        let summary = TaskSummary {
            required_fields: row(&needs, nf, t, Ghost(n as nat), Ghost(p_need)),
            possible_writes: row(&writes, nf, t, Ghost(n as nat), Ghost(p_write)),
            guaranteed_writes: row(&sure, nf, t, Ghost(n as nat), Ghost(p_sure)),
            terminating: ends[t],
            min_yield: min_yield[t] as usize,
            min_cost: min_cost[t],
            recursive: seen[t],
            self_embedding: right,
            tail_recursive: left && right,
        };
        assert(seen@[t as int] == reaches(net, t as int, t as int));
        assert(summarizes(summary, net, nf as nat, t as int));
        summaries.push(summary);
    }

    // The methods' baked facts.
    let ghost bounds = numbers(min_cost@);
    for t in 0..n
        invariant
            n == domain.tasks@.len() == old(domain).tasks@.len(),
            old(domain).wf(),
            net == network(*old(domain)),
            nf == old(domain).slots(),
            domain.root == old(domain).root,
            domain.components == old(domain).components,
            min_cost@.len() == n,
            bounds == numbers(min_cost@),
            writes@.len() == nf,
            sure@.len() == nf,
            p_write == (|f: int, t: int| can_write(net, f, t)),
            p_sure == (|f: int, t: int| must_write(net, f, t)),
            table_ok(writes@, n as nat, p_write),
            table_ok(sure@, n as nat, p_sure),
            forall|u: int|
                0 <= u < n ==> same_task(old(domain).tasks@[u], #[trigger] domain.tasks@[u]),
            forall|u: int, i: int|
                0 <= u < t && domain.tasks@[u] is Compound && 0 <= i
                    < domain.tasks@[u]->Compound_0.methods@.len() ==> method_summarized(
                    #[trigger] domain.tasks@[u]->Compound_0.methods@[i],
                    net,
                    nf as nat,
                    bounds,
                ),
    {
        let ghost before = domain.tasks@;
        assert(same_task(old(domain).tasks@[t as int], domain.tasks@[t as int]));
        assert(old(domain).tasks@[t as int].wf(n as nat, nf as nat));
        match &mut domain.tasks[t] {
            Task::Compound(c) => {
                store_facts(c, &writes, &sure, &min_cost, nf, Ghost(n as nat), Ghost(net));
            },
            _ => {},
        }
        proof {
            assert forall|u: int| 0 <= u < n implies same_task(
                old(domain).tasks@[u],
                #[trigger] domain.tasks@[u],
            ) by {
                if u != t {
                    assert(domain.tasks@[u] == before[u]);
                } else if before[u] is Compound {
                    let x = old(domain).tasks@[u]->Compound_0;
                    let y = before[u]->Compound_0;
                    let z = domain.tasks@[u]->Compound_0;
                    assert forall|i: int| 0 <= i < x.methods@.len() implies same_method(
                        x.methods@[i],
                        #[trigger] z.methods@[i],
                    ) by {
                        assert(same_method(x.methods@[i], y.methods@[i]));
                        assert(same_method(y.methods@[i], z.methods@[i]));
                    }
                }
            }
            assert forall|u: int, i: int|
                0 <= u < t + 1 && domain.tasks@[u] is Compound && 0 <= i
                    < domain.tasks@[u]->Compound_0.methods@.len() implies method_summarized(
                #[trigger] domain.tasks@[u]->Compound_0.methods@[i],
                net,
                nf as nat,
                bounds,
            ) by {
                if u < t {
                    assert(domain.tasks@[u] == before[u]);
                }
            }
        }
    }
    domain.summaries = summaries;
    proof {
        assert forall|t: int| 0 <= t < n implies #[trigger] network(*domain)[t] == net[t] by {
            assert(same_task(old(domain).tasks@[t], domain.tasks@[t]));
            lemma_same_shape(old(domain).tasks@[t], domain.tasks@[t]);
        }
        assert(network(*domain) =~= net);
        assert(cost_bounds(*domain) =~= bounds);
        assert(yield_bounds(*domain) =~= numbers(min_yield@));
        assert forall|t: int| 0 <= t < n implies (#[trigger] domain.tasks@[t]).wf(
            n as nat,
            nf as nat,
        ) by {
            assert(old(domain).tasks@[t].wf(n as nat, nf as nat));
            assert(same_task(old(domain).tasks@[t], domain.tasks@[t]));
            if domain.tasks@[t] is Compound {
                let x = old(domain).tasks@[t]->Compound_0;
                let y = domain.tasks@[t]->Compound_0;
                assert forall|i: int| 0 <= i < y.methods@.len() implies (#[trigger] y.methods@[i]).wf(
                    n as nat,
                    nf as nat,
                ) by {
                    assert(same_method(x.methods@[i], y.methods@[i]));
                    assert(x.methods@[i].wf(n as nat, nf as nat));
                }
            }
        }
        assert forall|i: int, j: int|
            0 <= i < domain.tasks@.len() && domain.tasks@[i] is Compound && 0 <= j
                < domain.tasks@[i]->Compound_0.methods@.len() implies (
        #[trigger] domain.tasks@[i]->Compound_0.methods@[j]).possible_writes.universe()
            == domain.slots() by {
            assert(method_summarized(
                domain.tasks@[i]->Compound_0.methods@[j],
                net,
                nf as nat,
                bounds,
            ));
        }
        assert forall|i: int| 0 <= i < domain.summaries@.len() implies (
        #[trigger] domain.summaries@[i]).possible_writes.universe() == domain.slots() by {
            assert(summarizes(domain.summaries@[i], net, nf as nat, i));
        }
    }
}

/// Stores the baked facts of every method of a task.
fn store_facts<M: PlanModel>(
    c: &mut CompoundTask<M>,
    writes: &Vec<Vec<bool>>,
    sure: &Vec<Vec<bool>>,
    min_cost: &Vec<u64>,
    nf: usize,
    Ghost(n): Ghost<nat>,
    Ghost(net): Ghost<Network>,
)
    requires
        n > 0,
        writes@.len() == nf,
        sure@.len() == nf,
        min_cost@.len() == n,
        table_ok(writes@, n, |f: int, t: int| can_write(net, f, t)),
        table_ok(sure@, n, |f: int, t: int| must_write(net, f, t)),
        forall|i: int, k: int|
            0 <= i < old(c).methods@.len() && 0 <= k < old(c).methods@[i].subtasks@.len() ==> (
            #[trigger] old(c).methods@[i].subtasks@[k]) < n,
    ensures
        same_task(Task::Compound(*old(c)), Task::Compound(*final(c))),
        forall|i: int|
            0 <= i < final(c).methods@.len() ==> method_summarized(
                #[trigger] final(c).methods@[i],
                net,
                nf as nat,
                numbers(min_cost@),
            ),
{
    let len: usize = c.methods.len();
    for i in 0..len
        invariant
            n > 0,
            len == c.methods@.len() == old(c).methods@.len(),
            *c == (CompoundTask { methods: c.methods, ..*old(c) }),
            writes@.len() == nf,
            sure@.len() == nf,
            min_cost@.len() == n,
            table_ok(writes@, n, |f: int, t: int| can_write(net, f, t)),
            table_ok(sure@, n, |f: int, t: int| must_write(net, f, t)),
            forall|i: int, k: int|
                0 <= i < old(c).methods@.len() && 0 <= k < old(c).methods@[i].subtasks@.len() ==> (
                #[trigger] old(c).methods@[i].subtasks@[k]) < n,
            forall|k: int|
                0 <= k < len ==> same_method(old(c).methods@[k], #[trigger] c.methods@[k]),
            forall|k: int|
                0 <= k < i ==> method_summarized(
                    #[trigger] c.methods@[k],
                    net,
                    nf as nat,
                    numbers(min_cost@),
                ),
    {
        let ghost before = c.methods@;
        assert(same_method(old(c).methods@[i as int], c.methods@[i as int]));
        assert forall|k: int| 0 <= k < c.methods@[i as int].subtasks@.len() implies (
        #[trigger] c.methods@[i as int].subtasks@[k]) < n by {
            assert(old(c).methods@[i as int].subtasks@[k] < n);
        }
        let possible = member_row(
            writes,
            nf,
            &c.methods[i],
            Ghost(n),
            Ghost(|f: int, t: int| can_write(net, f, t)),
        );
        let guaranteed = member_row(
            sure,
            nf,
            &c.methods[i],
            Ghost(n),
            Ghost(|f: int, t: int| must_write(net, f, t)),
        );
        let cost: u64 = sum_members(&c.methods[i], min_cost, u64::MAX);
        let ghost p_write = |f: int, t: int| can_write(net, f, t);
        let ghost p_sure = |f: int, t: int| must_write(net, f, t);
        proof {
            let shape = method_shape(c.methods@[i as int]);
            assert forall|f: int| #[trigger] possible.has(f) == (0 <= f < nf && some_member(
                shape,
                |u: int| can_write(net, f, u),
            )) by {
                assert((|u: int| p_write(f, u)) =~= (|u: int| can_write(net, f, u)));
            }
            assert forall|f: int| #[trigger] guaranteed.has(f) == (0 <= f < nf && some_member(
                shape,
                |u: int| must_write(net, f, u),
            )) by {
                assert((|u: int| p_sure(f, u)) =~= (|u: int| must_write(net, f, u)));
            }
        }
        c.methods[i].possible_writes = possible;
        c.methods[i].guaranteed_writes = guaranteed;
        c.methods[i].min_cost = cost;
        proof {
            let now = c.methods@[i as int];
            assert(method_shape(now) == method_shape(before[i as int]));
            assert(method_summarized(now, net, nf as nat, numbers(min_cost@)));
            assert forall|k: int| 0 <= k < i implies method_summarized(
                #[trigger] c.methods@[k],
                net,
                nf as nat,
                numbers(min_cost@),
            ) by {
                assert(c.methods@[k] == before[k]);
            }
            assert forall|k: int| 0 <= k < len implies same_method(
                old(c).methods@[k],
                #[trigger] c.methods@[k],
            ) by {
                if k != i {
                    assert(c.methods@[k] == before[k]);
                }
            }
        }
    }
}

proof fn lemma_stage_later(
    net: Network,
    rule: ClosureRule,
    base: spec_fn(int) -> bool,
    t: int,
    a: nat,
    b: nat,
)
    requires
        stage(net, rule, base, t, a),
        a <= b,
    ensures
        stage(net, rule, base, t, b),
    decreases b - a,
{
    if a < b {
        lemma_stage_monotone(net, rule, base, t, a);
        lemma_stage_later(net, rule, base, t, a + 1, b);
    }
}

/// One depth is enough for all tasks.
proof fn lemma_deep_enough(
    net: Network,
    rule: ClosureRule,
    base: spec_fn(int) -> bool,
    n: nat,
) -> (h: nat)
    ensures
        forall|u: int|
            0 <= u < n && eventually(net, rule, base, u) ==> #[trigger] stage(net, rule, base, u, h),
    decreases n,
{
    if n == 0 {
        0
    } else {
        let h = lemma_deep_enough(net, rule, base, (n - 1) as nat);
        let u = n - 1;
        if eventually(net, rule, base, u) {
            let k = choose|k: nat| stage(net, rule, base, u, k);
            let most = if h > k {
                h
            } else {
                k
            };
            assert forall|x: int| 0 <= x < n && eventually(net, rule, base, x) implies #[trigger] stage(
                net,
                rule,
                base,
                x,
                most,
            ) by {
                if x < n - 1 {
                    assert(stage(net, rule, base, x, h));
                    lemma_stage_later(net, rule, base, x, h, most);
                } else {
                    lemma_stage_later(net, rule, base, x, k, most);
                }
            }
            most
        } else {
            h
        }
    }
}

/// What a rule carries holds of a task exactly where it carries it from the
/// members.
proof fn lemma_eventually_unfolds(
    net: Network,
    rule: ClosureRule,
    base: spec_fn(int) -> bool,
    t: int,
)
    requires
        closed_network(net),
        0 <= t < net.len(),
    ensures
        net[t].compound ==> (eventually(net, rule, base, t) <==> rule_holds(
            rule,
            net[t],
            |u: int| eventually(net, rule, base, u),
        )),
        !net[t].compound ==> (eventually(net, rule, base, t) <==> base(t)),
{
    let all = |u: int| eventually(net, rule, base, u);
    if net[t].compound {
        if eventually(net, rule, base, t) {
            let h = choose|h: nat| stage(net, rule, base, t, h);
            let v = |u: int| stage(net, rule, base, u, (h - 1) as nat);
            assert(rule_holds(rule, net[t], v));
            lemma_rule_monotone(rule, net[t], v, all);
        }
        if rule_holds(rule, net[t], all) {
            let h = lemma_deep_enough(net, rule, base, net.len());
            let v = |u: int| stage(net, rule, base, u, h);
            assert forall|i: int, k: int|
                0 <= i < net[t].methods.len() && 0 <= k < net[t].methods[i].members.len() && all(
                    #[trigger] net[t].methods[i].members[k] as int,
                ) implies v(net[t].methods[i].members[k] as int) by {
                let u = net[t].methods[i].members[k] as int;
                assert(stage(net, rule, base, u, h));
            }
            lemma_rule_monotone(rule, net[t], all, v);
            assert(v =~= (|u: int| stage(net, rule, base, u, (h + 1 - 1) as nat)));
            assert(stage(net, rule, base, t, h + 1));
        }
    } else if base(t) {
        assert(stage(net, rule, base, t, 0));
    }
}

/// What the summary of a compound task says follows from the summaries of its
/// members: it terminates where all members of some branch do; it may write a slot
/// where some member of some branch may; and it is sure to write one where it has
/// branches and each has a member that is sure to.
pub proof fn summaries_follow_from_the_members<M: PlanModel>(
    d: HtnDomain<M>,
    t: int,
    c: CompoundTask<M>,
    f: int,
)
    requires
        d.wf(),
        d.summarized(),
        0 <= t < d.tasks@.len(),
        d.tasks@[t] == Task::Compound(c),
        0 <= f < d.slots(),
    ensures
        d.summaries@[t].terminating <==> exists|i: int|
            #![trigger c.methods@[i]]
            0 <= i < c.methods@.len() && forall|k: int|
                0 <= k < c.methods@[i].subtasks@.len()
                    ==> d.summaries@[#[trigger] c.methods@[i].subtasks@[k] as int].terminating,
        d.summaries@[t].possible_writes.has(f) <==> exists|i: int, k: int|
            0 <= i < c.methods@.len() && 0 <= k < c.methods@[i].subtasks@.len()
                && d.summaries@[#[trigger] c.methods@[i].subtasks@[k] as int].possible_writes.has(f),
        d.summaries@[t].guaranteed_writes.has(f) <==> c.methods@.len() > 0 && forall|i: int|
            #![trigger c.methods@[i]]
            0 <= i < c.methods@.len() ==> exists|k: int|
                0 <= k < c.methods@[i].subtasks@.len()
                    && d.summaries@[#[trigger] c.methods@[i].subtasks@[k] as int].guaranteed_writes.has(
                    f,
                ),
{
    let net = network(d);
    lemma_network_closed(d);
    assert(net[t] == task_shape(Task::Compound(c)));
    assert forall|i: int, k: int|
        0 <= i < c.methods@.len() && 0 <= k < c.methods@[i].subtasks@.len() implies {
        let u = #[trigger] c.methods@[i].subtasks@[k] as int;
        u < d.tasks@.len() && summarizes(d.summaries@[u], net, d.slots(), u)
    } by {
        assert(net[t].methods[i].members[k] == c.methods@[i].subtasks@[k]);
        assert(net[t].methods[i].members[k] < net.len());
    }
    assert(summarizes(d.summaries@[t], net, d.slots(), t));
    lemma_terminates_unfolds(d, t, c);
    lemma_writes_unfold(d, t, c, f);
    lemma_sure_unfolds(d, t, c, f);
}

proof fn lemma_terminates_unfolds<M: PlanModel>(d: HtnDomain<M>, t: int, c: CompoundTask<M>)
    requires
        closed_network(network(d)),
        0 <= t < d.tasks@.len(),
        d.tasks@[t] == Task::Compound(c),
        d.summaries@[t].terminating == terminates(network(d), t),
        forall|i: int, k: int|
            0 <= i < c.methods@.len() && 0 <= k < c.methods@[i].subtasks@.len() ==> {
                let u = #[trigger] c.methods@[i].subtasks@[k] as int;
                d.summaries@[u].terminating == terminates(network(d), u)
            },
    ensures
        d.summaries@[t].terminating <==> exists|i: int|
            #![trigger c.methods@[i]]
            0 <= i < c.methods@.len() && forall|k: int|
                0 <= k < c.methods@[i].subtasks@.len()
                    ==> d.summaries@[#[trigger] c.methods@[i].subtasks@[k] as int].terminating,
{
    let net = network(d);
    let base = |u: int| true;
    let rule = ClosureRule::SomeMethodAll;
    lemma_eventually_unfolds(net, rule, base, t);
    let ends = |u: int| eventually(net, rule, base, u);
    if d.summaries@[t].terminating {
        let i = choose|i: int|
            0 <= i < net[t].methods.len() && all_members(#[trigger] net[t].methods[i], ends);
        assert forall|k: int|
            0 <= k < c.methods@[i].subtasks@.len() implies d.summaries@[#[trigger] c.methods@[i].subtasks@[k] as int].terminating by {
            assert(ends(net[t].methods[i].members[k] as int));
        }
    }
    if exists|i: int|
        #![trigger c.methods@[i]]
        0 <= i < c.methods@.len() && forall|k: int|
            0 <= k < c.methods@[i].subtasks@.len()
                ==> d.summaries@[#[trigger] c.methods@[i].subtasks@[k] as int].terminating {
        let i = choose|i: int|
            #![trigger c.methods@[i]]
            0 <= i < c.methods@.len() && forall|k: int|
                0 <= k < c.methods@[i].subtasks@.len()
                    ==> d.summaries@[#[trigger] c.methods@[i].subtasks@[k] as int].terminating;
        assert(all_members(net[t].methods[i], ends)) by {
            assert forall|k: int| 0 <= k < net[t].methods[i].members.len() implies ends(
                #[trigger] net[t].methods[i].members[k] as int,
            ) by {
                assert(d.summaries@[c.methods@[i].subtasks@[k] as int].terminating);
            }
        }
    }
}

proof fn lemma_writes_unfold<M: PlanModel>(d: HtnDomain<M>, t: int, c: CompoundTask<M>, f: int)
    requires
        closed_network(network(d)),
        0 <= t < d.tasks@.len(),
        d.tasks@[t] == Task::Compound(c),
        d.summaries@[t].possible_writes.has(f) == can_write(network(d), f, t),
        forall|i: int, k: int|
            0 <= i < c.methods@.len() && 0 <= k < c.methods@[i].subtasks@.len() ==> {
                let u = #[trigger] c.methods@[i].subtasks@[k] as int;
                d.summaries@[u].possible_writes.has(f) == can_write(network(d), f, u)
            },
    ensures
        d.summaries@[t].possible_writes.has(f) <==> exists|i: int, k: int|
            0 <= i < c.methods@.len() && 0 <= k < c.methods@[i].subtasks@.len()
                && d.summaries@[#[trigger] c.methods@[i].subtasks@[k] as int].possible_writes.has(f),
{
    let net = network(d);
    let base = |u: int| net[u].writes.contains(f);
    let rule = ClosureRule::SomeMethodSome;
    lemma_eventually_unfolds(net, rule, base, t);
    let writes = |u: int| eventually(net, rule, base, u);
    if d.summaries@[t].possible_writes.has(f) {
        let i = choose|i: int|
            0 <= i < net[t].methods.len() && some_member(#[trigger] net[t].methods[i], writes);
        let k = choose|k: int|
            0 <= k < net[t].methods[i].members.len() && writes(
                #[trigger] net[t].methods[i].members[k] as int,
            );
        assert(d.summaries@[c.methods@[i].subtasks@[k] as int].possible_writes.has(f));
    }
    if exists|i: int, k: int|
        0 <= i < c.methods@.len() && 0 <= k < c.methods@[i].subtasks@.len()
            && d.summaries@[#[trigger] c.methods@[i].subtasks@[k] as int].possible_writes.has(f) {
        let (i, k) = choose|i: int, k: int|
            0 <= i < c.methods@.len() && 0 <= k < c.methods@[i].subtasks@.len()
                && d.summaries@[#[trigger] c.methods@[i].subtasks@[k] as int].possible_writes.has(f);
        assert(writes(net[t].methods[i].members[k] as int));
        assert(some_member(net[t].methods[i], writes));
    }
}

proof fn lemma_sure_unfolds<M: PlanModel>(d: HtnDomain<M>, t: int, c: CompoundTask<M>, f: int)
    requires
        closed_network(network(d)),
        0 <= t < d.tasks@.len(),
        d.tasks@[t] == Task::Compound(c),
        d.summaries@[t].guaranteed_writes.has(f) == must_write(network(d), f, t),
        forall|i: int, k: int|
            0 <= i < c.methods@.len() && 0 <= k < c.methods@[i].subtasks@.len() ==> {
                let u = #[trigger] c.methods@[i].subtasks@[k] as int;
                d.summaries@[u].guaranteed_writes.has(f) == must_write(network(d), f, u)
            },
    ensures
        d.summaries@[t].guaranteed_writes.has(f) <==> c.methods@.len() > 0 && forall|i: int|
            #![trigger c.methods@[i]]
            0 <= i < c.methods@.len() ==> exists|k: int|
                0 <= k < c.methods@[i].subtasks@.len()
                    && d.summaries@[#[trigger] c.methods@[i].subtasks@[k] as int].guaranteed_writes.has(
                    f,
                ),
{
    let net = network(d);
    let base = |u: int| net[u].sure_writes.contains(f);
    let rule = ClosureRule::EveryMethodSome;
    lemma_eventually_unfolds(net, rule, base, t);
    let writes = |u: int| eventually(net, rule, base, u);
    assert(net[t].methods.len() == c.methods@.len());
    assert forall|i: int| #![trigger c.methods@[i]] 0 <= i < c.methods@.len() implies (some_member(
        net[t].methods[i],
        writes,
    ) <==> exists|k: int|
        0 <= k < c.methods@[i].subtasks@.len()
            && d.summaries@[#[trigger] c.methods@[i].subtasks@[k] as int].guaranteed_writes.has(f)) by {
        if some_member(net[t].methods[i], writes) {
            let k = choose|k: int|
                0 <= k < net[t].methods[i].members.len() && writes(
                    #[trigger] net[t].methods[i].members[k] as int,
                );
            assert(d.summaries@[c.methods@[i].subtasks@[k] as int].guaranteed_writes.has(f));
        }
        if exists|k: int|
            0 <= k < c.methods@[i].subtasks@.len()
                && d.summaries@[#[trigger] c.methods@[i].subtasks@[k] as int].guaranteed_writes.has(
                f,
            ) {
            let k = choose|k: int|
                0 <= k < c.methods@[i].subtasks@.len()
                    && d.summaries@[#[trigger] c.methods@[i].subtasks@[k] as int].guaranteed_writes.has(
                    f,
                );
            assert(writes(net[t].methods[i].members[k] as int));
        }
    }
    if rule_holds(rule, net[t], writes) {
        assert forall|i: int| #![trigger c.methods@[i]] 0 <= i < c.methods@.len() implies exists|
            k: int,
        |
            0 <= k < c.methods@[i].subtasks@.len()
                && d.summaries@[#[trigger] c.methods@[i].subtasks@[k] as int].guaranteed_writes.has(
                f,
            ) by {
            assert(some_member(net[t].methods[i], writes));
        }
    }
    if c.methods@.len() > 0 && forall|i: int|
        #![trigger c.methods@[i]]
        0 <= i < c.methods@.len() ==> exists|k: int|
            0 <= k < c.methods@[i].subtasks@.len()
                && d.summaries@[#[trigger] c.methods@[i].subtasks@[k] as int].guaranteed_writes.has(
                f,
            ) {
        assert forall|i: int| 0 <= i < net[t].methods.len() implies some_member(
            #[trigger] net[t].methods[i],
            writes,
        ) by {
            assert(c.methods@[i] == c.methods@[i]);
        }
    }
}

/// What the summary of a primitive task says is what the task declares: it
/// terminates in one step, costs its constant cost, may write what an effect or an
/// expected effect writes, is sure to write what an effect writes, and requires
/// what a precondition reads.
pub proof fn primitive_summaries_are_as_declared<M: PlanModel>(
    d: HtnDomain<M>,
    t: int,
    p: PrimitiveTask<M>,
    f: int,
)
    requires
        d.wf(),
        d.summarized(),
        0 <= t < d.tasks@.len(),
        d.tasks@[t] == Task::Primitive(p),
        0 <= f < d.slots(),
    ensures
        d.summaries@[t].terminating,
        d.summaries@[t].min_yield == 1,
        p.cost matches Some(ScoreFn::Constant(n)) ==> (n >= 0 ==> d.summaries@[t].min_cost == n) && (
        n < 0 ==> d.summaries@[t].min_cost == 0),
        !(p.cost matches Some(ScoreFn::Constant(_))) ==> d.summaries@[t].min_cost == 0,
        d.summaries@[t].possible_writes.has(f) <==> some_writes(p.effects@, f) || some_writes(
            p.expected_effects@,
            f,
        ),
        d.summaries@[t].guaranteed_writes.has(f) <==> some_writes(p.effects@, f),
        d.summaries@[t].required_fields.has(f) <==> exists|i: int, j: int|
            0 <= i < p.preconditions@.len() && 0 <= j < p.preconditions@[i].reads@.len()
                && #[trigger] p.preconditions@[i].reads@[j] == f,
        !d.summaries@[t].recursive,
{
    let net = network(d);
    lemma_network_closed(d);
    assert(net[t] == task_shape(Task::Primitive(p)));
    assert(summarizes(d.summaries@[t], net, d.slots(), t));
    lemma_eventually_unfolds(net, ClosureRule::SomeMethodAll, |u: int| true, t);
    lemma_eventually_unfolds(
        net,
        ClosureRule::SomeMethodSome,
        |u: int| net[u].writes.contains(f),
        t,
    );
    lemma_eventually_unfolds(
        net,
        ClosureRule::EveryMethodSome,
        |u: int| net[u].sure_writes.contains(f),
        t,
    );
    assert(least_stage(net, yields(net), usize::MAX as nat, 0)[t] == 1);
    assert(least_stage(net, costs(net), u64::MAX as nat, 0)[t] == static_cost(p));
    lemma_leaf_least(net, yields(net), usize::MAX as nat, t, d.summaries@[t].min_yield as nat);
    lemma_leaf_least(net, costs(net), u64::MAX as nat, t, d.summaries@[t].min_cost as nat);
    assert(required(net, f, t) <==> net[t].reads.contains(f)) by {
        if net[t].reads.contains(f) {
            assert forall|h: nat| (#[trigger] reads_stage(net, f, h))[t] by {}
        } else {
            assert(!reads_stage(net, f, 0)[t]);
        }
    }
    if reaches(net, t, t) {
        let h = choose|h: nat| reaches_in(net, t, t, h);
        lemma_reaches_from_compound(net, t, t, h);
    }
}

proof fn lemma_reaches_from_compound(net: Network, i: int, j: int, h: nat)
    requires
        reaches_in(net, i, j, h),
    ensures
        net[i].compound,
        net[j].compound,
    decreases h,
{
    if !edge(net, i, j) {
        let k = choose|k: int|
            0 <= k < net.len() && reaches_in(net, i, k, (h - 1) as nat) && #[trigger] edge(
                net,
                k,
                j,
            );
        lemma_reaches_from_compound(net, i, k, (h - 1) as nat);
    }
}

proof fn lemma_leaf_least(net: Network, leaf: Seq<nat>, cap: nat, t: int, v: nat)
    requires
        0 <= t < net.len(),
        !net[t].compound,
        is_least(net, leaf, cap, t, v),
    ensures
        v == leaf[t],
{
    let h = choose|h: nat| (#[trigger] least_stage(net, leaf, cap, h))[t] == v;
    assert(least_stage(net, leaf, cap, h)[t] == leaf[t]);
}

/// The sum of `v` over the first `k` members of a branch.
pub open spec fn total_over(members: Seq<u32>, v: Seq<nat>, k: nat) -> nat
    decreases k,
{
    if k == 0 {
        0
    } else {
        total_over(members, v, (k - 1) as nat) + v[members[k - 1] as int]
    }
}

proof fn lemma_sum_capped(m: MethodShape, v: Seq<nat>, cap: nat, k: nat)
    ensures
        member_sum(m, v, cap, k) == (if total_over(m.members, v, k) < cap {
            total_over(m.members, v, k)
        } else if k == 0 {
            0
        } else {
            cap
        }),
    decreases k,
{
    if k > 0 {
        lemma_sum_capped(m, v, cap, (k - 1) as nat);
    }
}

proof fn lemma_least_of(t: TaskShape, v: Seq<nat>, cap: nat, k: nat)
    requires
        k <= t.methods.len(),
    ensures
        forall|i: int|
            0 <= i < k ==> least_method(t, v, cap, k) <= member_sum(
                #[trigger] t.methods[i],
                v,
                cap,
                t.methods[i].members.len(),
            ),
        least_method(t, v, cap, k) < cap ==> exists|i: int|
            0 <= i < k && least_method(t, v, cap, k) == member_sum(
                #[trigger] t.methods[i],
                v,
                cap,
                t.methods[i].members.len(),
            ),
    decreases k,
{
    if k > 0 {
        lemma_least_of(t, v, cap, (k - 1) as nat);
        let m = t.methods[k - 1];
        let sum = member_sum(m, v, cap, m.members.len());
        if sum < least_method(t, v, cap, (k - 1) as nat) {
            assert(least_method(t, v, cap, k) == member_sum(
                t.methods[k - 1],
                v,
                cap,
                t.methods[k - 1].members.len(),
            ));
        }
    }
}

proof fn lemma_least_attained(
    net: Network,
    leaf: Seq<nat>,
    bounds: Seq<nat>,
    cap: nat,
    t: int,
) -> (i: int)
    requires
        closed_network(net),
        0 <= t < net.len(),
        net[t].compound,
        bounds.len() == net.len(),
        forall|u: int|
            0 <= u < net.len() ==> is_least(net, leaf, cap, u, #[trigger] bounds[u]),
        settled(net, bounds, cap),
        bounds[t] < cap,
    ensures
        0 <= i < net[t].methods.len(),
        bounds[t] == total_over(
            net[t].methods[i].members,
            bounds,
            net[t].methods[i].members.len(),
        ),
{
    assert(is_least(net, leaf, cap, t, bounds[t]));
    let h = choose|h: nat| (#[trigger] least_stage(net, leaf, cap, h))[t] == bounds[t];
    assert(least_stage(net, leaf, cap, 0)[t] == cap);
    assert(h > 0);
    let below = least_stage(net, leaf, cap, (h - 1) as nat);
    let n = net[t].methods.len();
    assert(least_stage(net, leaf, cap, h)[t] == least_method(net[t], below, cap, n));
    lemma_least_of(net[t], below, cap, n);
    let i = choose|i: int|
        0 <= i < n && least_method(net[t], below, cap, n) == member_sum(
            #[trigger] net[t].methods[i],
            below,
            cap,
            net[t].methods[i].members.len(),
        );
    let m = net[t].methods[i];
    assert forall|k: int| 0 <= k < m.members.len() implies bounds[#[trigger] m.members[k] as int]
        <= below[m.members[k] as int] by {
        assert(net[t].methods[i].members[k] < net.len());
        let u = m.members[k] as int;
        assert(is_least(net, leaf, cap, u, bounds[u]));
    }
    lemma_member_sum_monotone(m, bounds, below, cap, m.members.len());
    lemma_least_of(net[t], bounds, cap, n);
    assert(bounds[t] <= least_method(net[t], bounds, cap, n));
    assert(least_method(net[t], bounds, cap, n) <= member_sum(m, bounds, cap, m.members.len()));
    lemma_sum_capped(m, bounds, cap, m.members.len());
    i
}

/// The bounds of a compound task are exact: no branch comes to less than the
/// task's minimum yield and minimum cost, by those of its members, and where the
/// minimum is not infinite some branch comes to just that.
pub proof fn minimum_bounds_are_attained<M: PlanModel>(
    d: HtnDomain<M>,
    t: int,
    c: CompoundTask<M>,
    least: Seq<nat>,
    cheapest: Seq<nat>,
)
    requires
        d.wf(),
        d.summarized(),
        0 <= t < d.tasks@.len(),
        d.tasks@[t] == Task::Compound(c),
        least == Seq::new(d.tasks@.len(), |u: int| d.summaries@[u].min_yield as nat),
        cheapest == Seq::new(d.tasks@.len(), |u: int| d.summaries@[u].min_cost as nat),
    ensures
        forall|i: int|
            0 <= i < c.methods@.len() ==> least[t] <= total_over(
                (#[trigger] c.methods@[i]).subtasks@,
                least,
                c.methods@[i].subtasks@.len(),
            ) && cheapest[t] <= total_over(
                c.methods@[i].subtasks@,
                cheapest,
                c.methods@[i].subtasks@.len(),
            ),
        d.summaries@[t].min_yield < usize::MAX ==> exists|i: int|
            0 <= i < c.methods@.len() && least[t] == total_over(
                (#[trigger] c.methods@[i]).subtasks@,
                least,
                c.methods@[i].subtasks@.len(),
            ),
        d.summaries@[t].min_cost < u64::MAX ==> exists|i: int|
            0 <= i < c.methods@.len() && cheapest[t] == total_over(
                (#[trigger] c.methods@[i]).subtasks@,
                cheapest,
                c.methods@[i].subtasks@.len(),
            ),
{
    let net = network(d);
    lemma_network_closed(d);
    assert(net[t] == task_shape(Task::Compound(c)));
    assert(least =~= yield_bounds(d));
    assert(cheapest =~= cost_bounds(d));
    let (a, b) = (usize::MAX as nat, u64::MAX as nat);
    let n = net[t].methods.len();
    lemma_least_of(net[t], least, a, n);
    lemma_least_of(net[t], cheapest, b, n);
    lemma_least_method_cap(net[t], least, a, n);
    lemma_least_method_cap(net[t], cheapest, b, n);
    assert(least[t] <= least_method(net[t], least, a, n));
    assert(cheapest[t] <= least_method(net[t], cheapest, b, n));
    assert forall|i: int| 0 <= i < c.methods@.len() implies least[t] <= total_over(
        (#[trigger] c.methods@[i]).subtasks@,
        least,
        c.methods@[i].subtasks@.len(),
    ) && cheapest[t] <= total_over(
        c.methods@[i].subtasks@,
        cheapest,
        c.methods@[i].subtasks@.len(),
    ) by {
        let m = net[t].methods[i];
        assert(m.members == c.methods@[i].subtasks@);
        lemma_sum_capped(m, least, a, m.members.len());
        lemma_sum_capped(m, cheapest, b, m.members.len());
    }
    assert forall|u: int| 0 <= u < net.len() implies is_least(
        net,
        yields(net),
        a,
        u,
        #[trigger] least[u],
    ) by {
        assert(summarizes(d.summaries@[u], net, d.slots(), u));
    }
    assert forall|u: int| 0 <= u < net.len() implies is_least(
        net,
        costs(net),
        b,
        u,
        #[trigger] cheapest[u],
    ) by {
        assert(summarizes(d.summaries@[u], net, d.slots(), u));
    }
    if d.summaries@[t].min_yield < usize::MAX {
        let i = lemma_least_attained(net, yields(net), least, a, t);
        assert(net[t].methods[i].members == c.methods@[i].subtasks@);
    }
    if d.summaries@[t].min_cost < u64::MAX {
        let i = lemma_least_attained(net, costs(net), cheapest, b, t);
        assert(net[t].methods[i].members == c.methods@[i].subtasks@);
    }
}

/// A task requires a slot where it terminates and every branch, in declared order,
/// starts with a member that requires it.
pub proof fn what_every_first_member_requires_is_required<M: PlanModel>(
    d: HtnDomain<M>,
    t: int,
    c: CompoundTask<M>,
    f: int,
)
    requires
        d.wf(),
        d.summarized(),
        0 <= t < d.tasks@.len(),
        d.tasks@[t] == Task::Compound(c),
        0 <= f < d.slots(),
        d.summaries@[t].terminating,
        forall|i: int|
            0 <= i < c.methods@.len() ==> {
                &&& (#[trigger] c.methods@[i]).order is Total
                &&& c.methods@[i].subtasks@.len() > 0
                &&& !(d.tasks@[c.methods@[i].subtasks@[0] as int] is Goal)
                &&& d.summaries@[c.methods@[i].subtasks@[0] as int].required_fields.has(f)
            },
    ensures
        d.summaries@[t].required_fields.has(f),
{
    let net = network(d);
    lemma_network_closed(d);
    assert(net[t] == task_shape(Task::Compound(c)));
    assert(summarizes(d.summaries@[t], net, d.slots(), t));
    assert(!can_avoid(net, f, t)) by {
        let base = |u: int| !net[u].reads.contains(f) && !net[u].writes.contains(f);
        lemma_eventually_unfolds(net, ClosureRule::SomeMethodAll, base, t);
        let avoids = |u: int| eventually(net, ClosureRule::SomeMethodAll, base, u);
        if can_avoid(net, f, t) {
            let i = choose|i: int|
                0 <= i < net[t].methods.len() && all_members(#[trigger] net[t].methods[i], avoids);
            let u = c.methods@[i].subtasks@[0] as int;
            assert(net[t].methods[i].members[0] == c.methods@[i].subtasks@[0]);
            assert(net[t].methods[i].members[0] < net.len());
            assert(avoids(net[t].methods[i].members[0] as int));
            assert(summarizes(d.summaries@[u], net, d.slots(), u));
            lemma_eventually_unfolds(net, ClosureRule::SomeMethodAll, base, u);
            assert(net[u] == task_shape(d.tasks@[u]));
            if net[u].compound {
                assert(reads_stage(net, f, 1)[u]);
                let before = reads_stage(net, f, (1 - 1) as nat);
                assert(read_step(net, f, u, before));
            } else {
                assert(reads_stage(net, f, 0)[u]);
            }
        }
    }
    assert forall|h: nat| (#[trigger] reads_stage(net, f, h))[t] by {
        if h > 0 {
            let below = reads_stage(net, f, (h - 1) as nat);
            assert forall|i: int| 0 <= i < net[t].methods.len() implies method_reads_first(
                net,
                f,
                #[trigger] net[t].methods[i],
                below,
            ) by {
                let u = c.methods@[i].subtasks@[0] as int;
                assert(net[t].methods[i].members[0] == c.methods@[i].subtasks@[0]);
                assert(net[t].methods[i].members[0] < net.len());
                assert(summarizes(d.summaries@[u], net, d.slots(), u));
                assert(below[u]);
            }
        }
    }
}

/// Whether tasks form a chain of decompositions: each is a compound task, and the
/// next is a member of one of its branches.
pub open spec fn chain_of<M: PlanModel>(d: HtnDomain<M>, path: Seq<int>) -> bool {
    &&& path.len() >= 2
    &&& forall|i: int|
        0 <= i < path.len() ==> 0 <= (#[trigger] path[i]) < d.tasks@.len()
            && d.tasks@[path[i]] is Compound
    &&& forall|i: int| 0 < i < path.len() ==> member_of(d, path[i - 1], #[trigger] path[i])
}

/// Whether a task is a member of a branch of another.
pub open spec fn member_of<M: PlanModel>(d: HtnDomain<M>, t: int, u: int) -> bool {
    exists|m: int, k: int|
        0 <= m < d.tasks@[t]->Compound_0.methods@.len() && 0 <= k
            < d.tasks@[t]->Compound_0.methods@[m].subtasks@.len()
            && #[trigger] d.tasks@[t]->Compound_0.methods@[m].subtasks@[k] == u
}

proof fn lemma_edge_member<M: PlanModel>(d: HtnDomain<M>, t: int, u: int)
    requires
        0 <= t < d.tasks@.len(),
        0 <= u < d.tasks@.len(),
        d.tasks@[t] is Compound,
        d.tasks@[u] is Compound,
    ensures
        edge(network(d), t, u) <==> member_of(d, t, u),
{
    let net = network(d);
    let c = d.tasks@[t]->Compound_0;
    assert(net[t] == task_shape(d.tasks@[t]));
    assert(net[u] == task_shape(d.tasks@[u]));
    if edge(net, t, u) {
        let (m, k) = choose|m: int, k: int|
            0 <= m < net[t].methods.len() && 0 <= k < net[t].methods[m].members.len()
                && #[trigger] net[t].methods[m].members[k] == u;
        assert(d.tasks@[t]->Compound_0.methods@[m].subtasks@[k] == u);
    }
    if member_of(d, t, u) {
        let (m, k) = choose|m: int, k: int|
            0 <= m < d.tasks@[t]->Compound_0.methods@.len() && 0 <= k
                < d.tasks@[t]->Compound_0.methods@[m].subtasks@.len()
                && #[trigger] d.tasks@[t]->Compound_0.methods@[m].subtasks@[k] == u;
        assert(net[t].methods[m].members[k] == u);
    }
}

proof fn lemma_reached_by_chain<M: PlanModel>(d: HtnDomain<M>, i: int, j: int, h: nat) -> (path: Seq<
    int,
>)
    requires
        0 <= i < d.tasks@.len(),
        0 <= j < d.tasks@.len(),
        reaches_in(network(d), i, j, h),
    ensures
        chain_of(d, path),
        path[0] == i,
        path.last() == j,
    decreases h,
{
    let net = network(d);
    lemma_reaches_from_compound(net, i, j, h);
    assert(net[i] == task_shape(d.tasks@[i]));
    assert(net[j] == task_shape(d.tasks@[j]));
    if edge(net, i, j) {
        lemma_edge_member(d, i, j);
        let path = seq![i, j];
        assert(path[0] == i && path[1] == j);
        path
    } else {
        let k = choose|k: int|
            0 <= k < net.len() && reaches_in(net, i, k, (h - 1) as nat) && #[trigger] edge(
                net,
                k,
                j,
            );
        let front = lemma_reached_by_chain(d, i, k, (h - 1) as nat);
        assert(net[k] == task_shape(d.tasks@[k]));
        lemma_edge_member(d, k, j);
        let path = front.push(j);
        assert forall|x: int| 0 < x < path.len() implies member_of(d, path[x - 1], #[trigger] path[x]) by {
            if x < front.len() {
                assert(member_of(d, front[x - 1], front[x]));
            }
        }
        assert forall|x: int| 0 <= x < path.len() implies 0 <= (#[trigger] path[x]) < d.tasks@.len()
            && d.tasks@[path[x]] is Compound by {
            if x < front.len() {
                assert(path[x] == front[x]);
            }
        }
        path
    }
}

proof fn lemma_chain_reaches<M: PlanModel>(d: HtnDomain<M>, path: Seq<int>)
    requires
        chain_of(d, path),
    ensures
        reaches_in(network(d), path[0], path.last(), path.len()),
    decreases path.len(),
{
    let net = network(d);
    let n = path.len();
    assert(member_of(d, path[n - 2], path[n - 1]));
    assert(0 <= path[n - 2] < d.tasks@.len() && 0 <= path[n - 1] < d.tasks@.len());
    lemma_edge_member(d, path[n - 2], path[n - 1]);
    if n > 2 {
        let front = path.drop_last();
        assert(chain_of(d, front)) by {
            assert forall|x: int| 0 < x < front.len() implies member_of(
                d,
                front[x - 1],
                #[trigger] front[x],
            ) by {
                assert(member_of(d, path[x - 1], path[x]));
            }
            assert forall|x: int| 0 <= x < front.len() implies 0 <= (#[trigger] front[x])
                < d.tasks@.len() && d.tasks@[front[x]] is Compound by {
                assert(path[x] == front[x]);
            }
        }
        lemma_chain_reaches(d, front);
        assert(front.last() == path[n - 2]);
        assert(reaches_in(net, path[0], path[n - 2], (n - 1) as nat) && edge(
            net,
            path[n - 2],
            path[n - 1],
        ));
    }
}

/// A task is recursive exactly where a chain of decompositions leads from it back
/// to itself.
pub proof fn recursive_tasks_come_back<M: PlanModel>(d: HtnDomain<M>, t: int)
    requires
        d.wf(),
        d.summarized(),
        0 <= t < d.tasks@.len(),
    ensures
        d.summaries@[t].recursive <==> exists|path: Seq<int>| #[trigger]
            chain_of(d, path) && path[0] == t && path.last() == t,
{
    let net = network(d);
    assert(summarizes(d.summaries@[t], net, d.slots(), t));
    if d.summaries@[t].recursive {
        let h = choose|h: nat| reaches_in(net, t, t, h);
        let path = lemma_reached_by_chain(d, t, t, h);
    }
    if exists|path: Seq<int>| #[trigger] chain_of(d, path) && path[0] == t && path.last() == t {
        let path = choose|path: Seq<int>| #[trigger]
            chain_of(d, path) && path[0] == t && path.last() == t;
        lemma_chain_reaches(d, path);
    }
}

/// Whether a task is a member of a branch of another with a member that can run
/// behind it (`behind`), or before it.
pub open spec fn embedded_in<M: PlanModel>(
    d: HtnDomain<M>,
    t: int,
    u: int,
    behind: bool,
) -> bool {
    exists|m: int, k: int|
        0 <= m < d.tasks@[t]->Compound_0.methods@.len() && 0 <= k
            < d.tasks@[t]->Compound_0.methods@[m].subtasks@.len()
            && #[trigger] d.tasks@[t]->Compound_0.methods@[m].subtasks@[k] == u && (
        d.tasks@[t]->Compound_0.methods@[m].order is Partial || (behind && k + 1
            < d.tasks@[t]->Compound_0.methods@[m].subtasks@.len()) || (!behind && k > 0))
}

/// Whether a chain of decompositions leads from a task to one in whose branches
/// the task is embedded.
pub open spec fn comes_back_embedded<M: PlanModel>(d: HtnDomain<M>, t: int, behind: bool) -> bool {
    exists|path: Seq<int>| #[trigger]
        chain_of(d, path) && path[0] == t && embedded_in(d, path.last(), t, behind)
}

proof fn lemma_embedded<M: PlanModel>(d: HtnDomain<M>, t: int, u: int)
    requires
        0 <= t < d.tasks@.len(),
        0 <= u < d.tasks@.len(),
        d.tasks@[t] is Compound,
        d.tasks@[u] is Compound,
    ensures
        edge_not_last(network(d), t, u) <==> embedded_in(d, t, u, true),
        edge_not_first(network(d), t, u) <==> embedded_in(d, t, u, false),
{
    let net = network(d);
    assert(net[t] == task_shape(d.tasks@[t]));
    assert(net[u] == task_shape(d.tasks@[u]));
    assert forall|m: int, k: int|
        0 <= m < d.tasks@[t]->Compound_0.methods@.len() && 0 <= k
            < d.tasks@[t]->Compound_0.methods@[m].subtasks@.len() implies #[trigger] d.tasks@[t]->Compound_0.methods@[m].subtasks@[k]
        == net[t].methods[m].members[k] by {}
    if edge_not_last(net, t, u) {
        let (m, k) = choose|m: int, k: int|
            0 <= m < net[t].methods.len() && 0 <= k < net[t].methods[m].members.len()
                && #[trigger] net[t].methods[m].members[k] == u && (net[t].methods[m].partial || k
                + 1 != net[t].methods[m].members.len());
        assert(d.tasks@[t]->Compound_0.methods@[m].subtasks@[k] == u);
    }
    if edge_not_first(net, t, u) {
        let (m, k) = choose|m: int, k: int|
            0 <= m < net[t].methods.len() && 0 <= k < net[t].methods[m].members.len()
                && #[trigger] net[t].methods[m].members[k] == u && (net[t].methods[m].partial || k
                != 0);
        assert(d.tasks@[t]->Compound_0.methods@[m].subtasks@[k] == u);
    }
    if embedded_in(d, t, u, true) {
        let (m, k) = choose|m: int, k: int|
            0 <= m < d.tasks@[t]->Compound_0.methods@.len() && 0 <= k
                < d.tasks@[t]->Compound_0.methods@[m].subtasks@.len()
                && #[trigger] d.tasks@[t]->Compound_0.methods@[m].subtasks@[k] == u && (
            d.tasks@[t]->Compound_0.methods@[m].order is Partial || (true && k + 1
                < d.tasks@[t]->Compound_0.methods@[m].subtasks@.len()) || (!true && k > 0));
        assert(net[t].methods[m].members[k] == u);
    }
    if embedded_in(d, t, u, false) {
        let (m, k) = choose|m: int, k: int|
            0 <= m < d.tasks@[t]->Compound_0.methods@.len() && 0 <= k
                < d.tasks@[t]->Compound_0.methods@[m].subtasks@.len()
                && #[trigger] d.tasks@[t]->Compound_0.methods@[m].subtasks@[k] == u && (
            d.tasks@[t]->Compound_0.methods@[m].order is Partial || (false && k + 1
                < d.tasks@[t]->Compound_0.methods@[m].subtasks@.len()) || (!false && k > 0));
        assert(net[t].methods[m].members[k] == u);
    }
}

proof fn lemma_comes_back<M: PlanModel>(d: HtnDomain<M>, t: int, behind: bool)
    requires
        0 <= t < d.tasks@.len(),
    ensures
        comes_back_embedded(d, t, behind) <==> exists|j: int|
            0 <= j < network(d).len() && #[trigger] reaches(network(d), t, j) && if behind {
                edge_not_last(network(d), j, t)
            } else {
                edge_not_first(network(d), j, t)
            },
{
    let net = network(d);
    assert(net[t] == task_shape(d.tasks@[t]));
    if comes_back_embedded(d, t, behind) {
        let path = choose|path: Seq<int>| #[trigger]
            chain_of(d, path) && path[0] == t && embedded_in(d, path.last(), t, behind);
        lemma_chain_reaches(d, path);
        let j = path.last();
        assert(path[path.len() - 1] == j);
        assert(path[0] == t);
        lemma_embedded(d, j, t);
        assert(reaches(net, t, j));
    }
    if exists|j: int|
        0 <= j < net.len() && #[trigger] reaches(net, t, j) && if behind {
            edge_not_last(net, j, t)
        } else {
            edge_not_first(net, j, t)
        } {
        let j = choose|j: int|
            0 <= j < net.len() && #[trigger] reaches(net, t, j) && if behind {
                edge_not_last(net, j, t)
            } else {
                edge_not_first(net, j, t)
            };
        let h = choose|h: nat| reaches_in(net, t, j, h);
        let path = lemma_reached_by_chain(d, t, j, h);
        assert(net[j] == task_shape(d.tasks@[j]));
        lemma_embedded(d, j, t);
    }
}

/// A task is self-embedding exactly where it decomposes into itself with something
/// that can run behind it, and tail-recursive in the sense of the flag exactly
/// where it does so with something behind it and with something before it.
pub proof fn embedding_flags_are_exact<M: PlanModel>(d: HtnDomain<M>, t: int)
    requires
        d.wf(),
        d.summarized(),
        0 <= t < d.tasks@.len(),
    ensures
        d.summaries@[t].self_embedding <==> comes_back_embedded(d, t, true),
        d.summaries@[t].tail_recursive <==> comes_back_embedded(d, t, true) && comes_back_embedded(
            d,
            t,
            false,
        ),
{
    assert(summarizes(d.summaries@[t], network(d), d.slots(), t));
    lemma_comes_back(d, t, true);
    lemma_comes_back(d, t, false);
}

} // verus!
