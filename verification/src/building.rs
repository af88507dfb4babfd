//! Building a domain: the recorded tasks are validated and baked into the
//! network that the planners run on.

use crate::domain::{
    no_goal_members, writes_of, CompoundTask, GoalTask, HtnDomain, Method, PrimitiveTask, Task,
};
use crate::error::{HtnError, HtnResult};
use crate::gtn::{
    apply_insertion, apply_sharing, first_insertable_error, first_share_error, inserted, shared,
    Sharing,
};
use crate::model::{effects_fit, Effect, PlanModel};
use crate::names::{name_text, text_of};
use crate::order::{
    bit, declaration_order, linearize, topo_order_count, topo_orders, MemberOrder, SubtaskOrder,
    LINEARIZATION_CAP,
};
use crate::recording::{
    compile_effects, compiled_effects, distinct, effect_params, entry_from, entry_of, expansion,
    find_entry,
    lemma_effects_fit_grow, lemma_entry_found, lemma_proto_fits_grows, members_known, method_fits,
    proto_fits, recorded, registered_all, reversed, texts, twice_added, twice_count, MethodProto,
    Recorder, SubtaskRef, TaskEntry, TaskProto, TaskSource,
};
use crate::state::FieldSet;
use crate::summaries::{compute_summaries, same_method, same_task};
use crate::tasks::{GoalBuilder, TaskBuilder};
use crate::text::{decimal, decimal_text, join3};
use ustr::Ustr;
use vstd::prelude::*;

verus! {

/// A recorded goal.
pub struct GoalEntry<M: PlanModel> {
    /// The goal function's name.
    pub name: Ustr,
    /// The goal function's identity.
    pub task: u64,
    /// The desired effects.
    pub effects: Vec<Effect<M>>,
}

/// A domain that is being put together: a recording, and goals.
pub struct DomainBuilder<M: PlanModel> {
    /// The recording.
    pub rec: Recorder<M>,
    /// The goals.
    pub goals: Vec<GoalEntry<M>>,
}

// ---- member order ----------------------------------------------------------

/// Whether member `q` of a branch completes before member `p` starts: a chained
/// member runs behind every member before it, any other behind the chained ones
/// before it, and constraints add to that.
pub open spec fn precedes<M: PlanModel>(m: MethodProto<M>, q: int, p: int) -> bool {
    ||| q < p && (m.subtasks@[p].chained || m.subtasks@[q].chained)
    ||| m.edges@.contains((q as u32, p as u32))
}

/// The members below `k` that precede member `p`, as a bit mask.
pub open spec fn preds_mask<M: PlanModel>(m: MethodProto<M>, p: int, k: nat) -> u64
    decreases k,
{
    if k == 0 {
        0
    } else {
        let before = preds_mask(m, p, (k - 1) as nat);
        if precedes(m, k - 1, p) {
            before | (1u64 << ((k - 1) as u64))
        } else {
            before
        }
    }
}

/// The constraint graph of a branch: one mask of predecessors per member.
pub open spec fn preds_of<M: PlanModel>(m: MethodProto<M>) -> Seq<u64> {
    Seq::new(m.subtasks@.len(), |p: int| preds_mask(m, p, m.subtasks@.len()))
}

proof fn lemma_bit_or(mask: u64, q: u64, r: u64)
    requires
        q < 64,
        r < 64,
    ensures
        bit(mask | (1u64 << q), r as int) == (bit(mask, r as int) || q == r),
{
    assert(((mask | (1u64 << q)) >> r) & 1 == 1 <==> (mask >> r) & 1 == 1 || q == r)
        by (bit_vector)
        requires
            q < 64,
            r < 64,
    ;
}

proof fn lemma_mask_bits<M: PlanModel>(m: MethodProto<M>, p: int, k: nat, q: int)
    requires
        k <= 64,
        0 <= q < 64,
    ensures
        bit(preds_mask(m, p, k), q) == (q < k && precedes(m, q, p)),
    decreases k,
{
    if k == 0 {
        let r = q as u64;
        assert((0u64 >> r) & 1 == 0) by (bit_vector);
    } else {
        lemma_mask_bits(m, p, (k - 1) as nat, q);
        if precedes(m, k - 1, p) {
            lemma_bit_or(preds_mask(m, p, (k - 1) as nat), (k - 1) as u64, q as u64);
        }
    }
}

/// The baked constraint graph says exactly which members precede which.
pub proof fn constraint_graph_holds_the_constraints<M: PlanModel>(
    m: MethodProto<M>,
    p: int,
    q: int,
)
    requires
        m.subtasks@.len() <= 64,
        0 <= p < m.subtasks@.len(),
        0 <= q < 64,
    ensures
        bit(preds_of(m)[p], q) == (q < m.subtasks@.len() && precedes(m, q, p)),
{
    lemma_mask_bits(m, p, m.subtasks@.len(), q);
}

/// Whether a constraint names a member that the branch does not have.
pub open spec fn edge_out_of_range<M: PlanModel>(m: MethodProto<M>) -> bool {
    exists|i: int|
        0 <= i < m.edges@.len() && ((#[trigger] m.edges@[i]).0 >= m.subtasks@.len()
            || m.edges@[i].1 >= m.subtasks@.len())
}

/// Whether a branch is a plain chain.
pub open spec fn is_chain<M: PlanModel>(m: MethodProto<M>) -> bool {
    !m.unordered && m.edges@.len() == 0
}

/// What is wrong with the member order of a branch of `task`, if anything.
pub open spec fn order_error<M: PlanModel>(m: MethodProto<M>, task: Seq<char>) -> Option<
    Seq<char>,
> {
    if is_chain(m) {
        None
    } else if m.subtasks@.len() > 64 {
        Some(
            "compound task `"@ + task + "` has a partially-ordered branch with "@ + decimal_text(
                m.subtasks@.len(),
            ) + " members — the limit is 64"@,
        )
    } else if edge_out_of_range(m) {
        Some(
            "compound task `"@ + task
                + "` has a branch whose `before` constraints name a member it does not have"@,
        )
    } else if topo_orders(preds_of(m)).len() == 0 {
        Some(
            "compound task `"@ + task + "` has a branch whose `before` constraints form a cycle"@,
        )
    } else {
        None
    }
}

/// Whether `order` is the baked member order of a branch: total for a chain, and
/// where the declaration order is the only one; the constraint graph, with the
/// number of its orders and the first of them, otherwise.
pub open spec fn baked_order<M: PlanModel>(m: MethodProto<M>, order: SubtaskOrder) -> bool {
    let orders = topo_orders(preds_of(m));
    if is_chain(m) || (orders.len() == 1 && orders[0] == declaration_order(m.subtasks@.len())) {
        order is Total
    } else {
        order matches SubtaskOrder::Partial { preds, orders: count, first } && {
            &&& preds@ == preds_of(m)
            &&& count == vstd::math::min(orders.len() as int, LINEARIZATION_CAP as int)
            &&& first@ == orders[0]
        }
    }
}

fn has_edge(edges: &Vec<(u32, u32)>, q: u32, p: u32) -> (b: bool)
    ensures
        b == edges@.contains((q, p)),
{
    for i in 0..edges.len()
        invariant
            forall|k: int| 0 <= k < i ==> edges@[k] != (q, p),
    {
        let (x, y) = edges[i];
        if x == q && y == p {
            assert(edges@[i as int] == (q, p));
            return true;
        }
    }
    false
}

/// The constraint graph of a branch.
fn build_preds<M: PlanModel>(m: &MethodProto<M>) -> (preds: Vec<u64>)
    requires
        m.subtasks@.len() <= 64,
    ensures
        preds@ == preds_of(*m),
{
    let n: usize = m.subtasks.len();
    let mut preds: Vec<u64> = Vec::new();
    for p in 0..n
        invariant
            n == m.subtasks@.len(),
            n <= 64,
            preds@.len() == p,
            forall|k: int| 0 <= k < p ==> (#[trigger] preds@[k]) == preds_mask(*m, k, n as nat),
    {
        let mut mask: u64 = 0;
        for q in 0..n
            invariant
                n == m.subtasks@.len(),
                n <= 64,
                p < n,
                mask == preds_mask(*m, p as int, q as nat),
        {
            let before = q < p && (m.subtasks[p].chained || m.subtasks[q].chained);
            if before || has_edge(&m.edges, q as u32, p as u32) {
                mask = mask | (1u64 << (q as u64));
            }
        }
        preds.push(mask);
    }
    assert(preds@ =~= preds_of(*m));
    preds
}

fn is_declaration_order(order: &MemberOrder) -> (b: bool)
    requires
        order@.len() <= 64,
    ensures
        b == (order@ == declaration_order(order@.len())),
{
    let list = order.to_vec();
    for i in 0..list.len()
        invariant
            list@ == order@,
            list@.len() <= 64,
            forall|k: int| 0 <= k < i ==> list@[k] == k as u8,
    {
        if list[i] != i as u8 {
            assert(order@[i as int] != declaration_order(order@.len())[i as int]);
            return false;
        }
    }
    assert(order@ =~= declaration_order(order@.len()));
    true
}

fn has_wild_edge<M: PlanModel>(m: &MethodProto<M>) -> (b: bool)
    ensures
        b == edge_out_of_range(*m),
{
    for i in 0..m.edges.len()
        invariant
            forall|k: int|
                0 <= k < i ==> (#[trigger] m.edges@[k]).0 < m.subtasks@.len() && m.edges@[k].1
                    < m.subtasks@.len(),
    {
        let (q, p) = m.edges[i];
        if q as usize >= m.subtasks.len() || p as usize >= m.subtasks.len() {
            assert(m.edges@[i as int] == (q, p));
            return true;
        }
    }
    false
}

/// Bakes the member order of a branch of `task`.
pub fn bake_subtask_order<M: PlanModel>(m: &MethodProto<M>, task: Ustr) -> (result: HtnResult<
    SubtaskOrder,
>)
    ensures
        match result {
            Ok(order) => order_error(*m, text_of(task)) is None && baked_order(*m, order),
            Err(e) => order_error(*m, text_of(task)) matches Some(text) && e.is_builder(text),
        },
{
    if !m.unordered && m.edges.len() == 0 {
        return Ok(SubtaskOrder::Total);
    }
    let n: usize = m.subtasks.len();
    if n > 64 {
        let number = decimal(n);
        let front = join3(
            "compound task `",
            name_text(task),
            "` has a partially-ordered branch with ",
        );
        let text = join3(front.as_str(), number.as_str(), " members — the limit is 64");
        return Err(HtnError::builder(text));
    }
    if has_wild_edge(m) {
        let text = join3(
            "compound task `",
            name_text(task),
            "` has a branch whose `before` constraints name a member it does not have",
        );
        return Err(HtnError::builder(text));
    }
    let preds = build_preds(m);
    let orders: usize = topo_order_count(preds.as_slice(), LINEARIZATION_CAP);
    let first = match linearize(preds.as_slice(), 0) {
        Some(first) => first,
        None => {
            let text = join3(
                "compound task `",
                name_text(task),
                "` has a branch whose `before` constraints form a cycle",
            );
            return Err(HtnError::builder(text));
        },
    };
    proof {
        crate::order::orders_are_the_topological_orders(preds@, first@);
        assert(topo_orders(preds@).contains(first@)) by {
            assert(topo_orders(preds@)[0] == first@);
        }
    }
    assert(first@.len() == n);
    if orders == 1 && is_declaration_order(&first) {
        return Ok(SubtaskOrder::Total);
    }
    Ok(SubtaskOrder::Partial { preds, orders: orders as u32, first })
}

// ---- baking tasks ----------------------------------------------------------

/// What is wrong with the first wrong branch from `k` on, if any is.
pub open spec fn first_order_error<M: PlanModel>(
    methods: Seq<MethodProto<M>>,
    task: Seq<char>,
    k: nat,
) -> Option<Seq<char>>
    decreases methods.len() - k,
{
    if k >= methods.len() {
        None
    } else {
        match order_error(methods[k as int], task) {
            Some(e) => Some(e),
            None => first_order_error(methods, task, k + 1),
        }
    }
}

/// What keeps a task from being baked, if anything.
pub open spec fn bake_error<M: PlanModel>(entry: TaskEntry<M>) -> Option<Seq<char>> {
    match entry.proto {
        TaskProto::Compound { methods, policy } => if methods@.len() == 0 {
            Some(
                "compound task `"@ + text_of(entry.name)
                    + "` has no branches — it can never decompose"@,
            )
        } else {
            first_order_error(methods@, text_of(entry.name), 0)
        },
        TaskProto::Primitive { .. } => None,
    }
}

/// What is wrong with the first task from `k` on that cannot be baked, if any is.
pub open spec fn first_bake_error<M: PlanModel>(tasks: Seq<TaskEntry<M>>, k: nat) -> Option<
    Seq<char>,
>
    decreases tasks.len() - k,
{
    if k >= tasks.len() {
        None
    } else {
        match bake_error(tasks[k as int]) {
            Some(e) => Some(e),
            None => first_bake_error(tasks, k + 1),
        }
    }
}

/// Whether a baked branch is what was recorded: its members are indices, and a
/// partially-ordered branch has no place to pause at.
pub open spec fn baked_method<M: PlanModel>(
    tasks: Seq<TaskEntry<M>>,
    m: MethodProto<M>,
    b: Method<M>,
) -> bool {
    &&& b.name == m.name
    &&& b.utility == m.utility
    &&& b.preconditions == m.preconditions
    &&& b.subtasks@.len() == m.subtasks@.len()
    &&& forall|i: int|
        0 <= i < m.subtasks@.len() ==> entry_of(tasks, (#[trigger] m.subtasks@[i]).task) == Some(
            b.subtasks@[i] as usize,
        )
    &&& baked_order(m, b.order)
    &&& b.pause_positions@ == (if b.order is Total {
        m.pause_positions@
    } else {
        Seq::empty()
    })
}

/// The identity that a baked task keeps: none for a made-up one.
pub open spec fn identity(id: SubtaskRef) -> Option<u64> {
    match id {
        SubtaskRef::Fn(task) => Some(task),
        SubtaskRef::Synthetic(_) => None,
    }
}

/// Whether a baked task is what was recorded.
pub open spec fn baked_task<M: PlanModel>(
    tasks: Seq<TaskEntry<M>>,
    entry: TaskEntry<M>,
    task: Task<M>,
) -> bool {
    match (entry.proto, task) {
        (TaskProto::Compound { methods, policy }, Task::Compound(c)) => {
            &&& c.name == entry.name
            &&& c.type_id == identity(entry.id)
            &&& c.policy == policy
            &&& c.methods@.len() == methods@.len()
            &&& forall|i: int|
                0 <= i < methods@.len() ==> baked_method(tasks, methods@[i], #[trigger] c.methods@[i])
        },
        (
            TaskProto::Primitive { preconditions, effects, expected_effects, action, cost },
            Task::Primitive(p),
        ) => {
            &&& p.name == entry.name
            &&& p.type_id == identity(entry.id)
            &&& p.preconditions == preconditions
            &&& p.effects == effects
            &&& p.expected_effects == expected_effects
            &&& p.action == action
            &&& p.cost == cost
        },
        _ => false,
    }
}

/// Whether a branch has more members than indices reach.
pub open spec fn long_method<M: PlanModel>(m: MethodProto<M>) -> bool {
    m.subtasks@.len() > u32::MAX
}

/// Whether a task has more branches, or a branch more members, than indices
/// reach.
pub open spec fn long_task<M: PlanModel>(proto: TaskProto<M>) -> bool {
    proto matches TaskProto::Compound { methods, policy } && (methods@.len() > u32::MAX
        || exists|i: int| 0 <= i < methods@.len() && long_method(#[trigger] methods@[i]))
}

/// Whether a domain is larger than indices reach.
pub open spec fn too_large<M: PlanModel>(tasks: Seq<TaskEntry<M>>, goals: nat) -> bool {
    tasks.len() + goals > u32::MAX || exists|i: int|
        0 <= i < tasks.len() && long_task((#[trigger] tasks[i]).proto)
}

fn is_long_task<M: PlanModel>(proto: &TaskProto<M>) -> (b: bool)
    ensures
        b == long_task(*proto),
{
    match proto {
        TaskProto::Compound { methods, policy } => {
            if methods.len() > u32::MAX as usize {
                return true;
            }
            for i in 0..methods.len()
                invariant
                    *proto == (TaskProto::<M>::Compound { methods: *methods, policy: *policy }),
                    forall|k: int| 0 <= k < i ==> !long_method(#[trigger] methods@[k]),
            {
                if methods[i].subtasks.len() > u32::MAX as usize {
                    assert(long_method(methods@[i as int]));
                    return true;
                }
            }
            false
        },
        TaskProto::Primitive { .. } => false,
    }
}

fn is_too_large<M: PlanModel>(tasks: &Vec<TaskEntry<M>>, goals: usize) -> (b: bool)
    ensures
        b == too_large(tasks@, goals as nat),
{
    if tasks.len() > u32::MAX as usize || goals > u32::MAX as usize || tasks.len() as u64
        + goals as u64 > u32::MAX as u64 {
        return true;
    }
    for i in 0..tasks.len()
        invariant
            tasks@.len() + goals <= u32::MAX,
            forall|k: int| 0 <= k < i ==> !long_task((#[trigger] tasks@[k]).proto),
    {
        if is_long_task(&tasks[i].proto) {
            return true;
        }
    }
    false
}

/// The references of recorded tasks, in order.
fn task_refs<M: PlanModel>(tasks: &Vec<TaskEntry<M>>) -> (ids: Vec<SubtaskRef>)
    ensures
        ids@ == Seq::new(tasks@.len(), |i: int| tasks@[i].id),
{
    let mut ids: Vec<SubtaskRef> = Vec::new();
    for i in 0..tasks.len()
        invariant
            ids@ == Seq::new(i as nat, |k: int| tasks@[k].id),
    {
        ids.push(tasks[i].id);
        assert(ids@ =~= Seq::new((i + 1) as nat, |k: int| tasks@[k].id));
    }
    ids
}

/// The index of the task that `r` refers to.
fn find_ref<M: PlanModel>(
    ids: &Vec<SubtaskRef>,
    r: SubtaskRef,
    Ghost(tasks): Ghost<Seq<TaskEntry<M>>>,
) -> (index: usize)
    requires
        ids@ == Seq::new(tasks.len(), |i: int| tasks[i].id),
        recorded(tasks, r),
        tasks.len() <= u32::MAX,
    ensures
        entry_of(tasks, r) == Some(index),
        index < tasks.len(),
{
    for i in 0..ids.len()
        invariant
            ids@ == Seq::new(tasks.len(), |k: int| tasks[k].id),
            entry_of(tasks, r) == entry_from(tasks, r, i as nat),
    {
        if ids[i] == r {
            return i;
        }
    }
    proof {
        assert(ids.len() <= usize::MAX);
        lemma_entry_found(tasks, r, 0);
        let i = choose|i: int| 0 <= i < tasks.len() && (#[trigger] tasks[i]).id == r;
        assert(tasks[i].id == r);
        assert(false);
    }
    0
}

/// Bakes a branch.
fn bake_method<M: PlanModel>(
    m: MethodProto<M>,
    task: Ustr,
    ids: &Vec<SubtaskRef>,
    nf: usize,
    Ghost(tasks): Ghost<Seq<TaskEntry<M>>>,
) -> (result: HtnResult<Method<M>>)
    requires
        ids@ == Seq::new(tasks.len(), |i: int| tasks[i].id),
        tasks.len() <= u32::MAX,
        method_fits(m, nf as nat),
        !long_method(m),
        forall|k: int| 0 <= k < m.subtasks@.len() ==> recorded(tasks, (#[trigger] m.subtasks@[k]).task),
    ensures
        match result {
            Ok(b) => order_error(m, text_of(task)) is None && baked_method(tasks, m, b) && b.wf(
                tasks.len(),
                nf as nat,
            ),
            Err(e) => order_error(m, text_of(task)) matches Some(text) && e.is_builder(text),
        },
{
    let order = match bake_subtask_order(&m, task) {
        Ok(order) => order,
        Err(e) => {
            return Err(e);
        },
    };
    let mut subtasks: Vec<u32> = Vec::new();
    for i in 0..m.subtasks.len()
        invariant
            ids@ == Seq::new(tasks.len(), |k: int| tasks[k].id),
            tasks.len() <= u32::MAX,
            forall|k: int|
                0 <= k < m.subtasks@.len() ==> recorded(tasks, (#[trigger] m.subtasks@[k]).task),
            subtasks@.len() == i,
            forall|k: int|
                0 <= k < i ==> entry_of(tasks, (#[trigger] m.subtasks@[k]).task) == Some(
                    subtasks@[k] as usize,
                ) && subtasks@[k] < tasks.len(),
    {
        let index: usize = find_ref::<M>(ids, m.subtasks[i].task, Ghost(tasks));
        subtasks.push(index as u32);
    }
    let total = match &order {
        SubtaskOrder::Total => true,
        SubtaskOrder::Partial { .. } => false,
    };
    let pause_positions: Vec<u32> = if total {
        m.pause_positions
    } else {
        Vec::new()
    };
    assert(!total ==> pause_positions@ =~= Seq::<u32>::empty());
    proof {
        if order is Partial {
            if m.subtasks@.len() == 0 {
                lemma_no_members_one_order(preds_of(m));
            }
        }
    }
    let b = Method {
        name: m.name,
        utility: m.utility,
        preconditions: m.preconditions,
        subtasks,
        order,
        pause_positions,
        possible_writes: FieldSet::new(0),
        guaranteed_writes: FieldSet::new(0),
        min_cost: 0,
    };
    assert(b.wf(tasks.len(), nf as nat)) by {
        assert forall|i: int| 0 <= i < b.subtasks@.len() implies (#[trigger] b.subtasks@[i])
            < tasks.len() by {
            assert(entry_of(tasks, m.subtasks@[i].task) == Some(b.subtasks@[i] as usize));
        }
    }
    Ok(b)
}

proof fn lemma_no_members_one_order(preds: Seq<u64>)
    requires
        preds.len() == 0,
    ensures
        topo_orders(preds).len() == 1,
        topo_orders(preds)[0] == declaration_order(0),
{
    assert(declaration_order(0) =~= Seq::<u8>::empty());
}

/// Whether the members of a task all refer to recorded tasks.
pub open spec fn members_recorded<M: PlanModel>(
    tasks: Seq<TaskEntry<M>>,
    proto: TaskProto<M>,
) -> bool {
    proto matches TaskProto::Compound { methods, policy } ==> forall|m: int, k: int|
        0 <= m < methods@.len() && 0 <= k < methods@[m].subtasks@.len() ==> recorded(
            tasks,
            (#[trigger] methods@[m].subtasks@[k]).task,
        )
}

/// Bakes a task.
fn bake_task<M: PlanModel>(
    entry: TaskEntry<M>,
    ids: &Vec<SubtaskRef>,
    nf: usize,
    Ghost(tasks): Ghost<Seq<TaskEntry<M>>>,
) -> (result: HtnResult<Task<M>>)
    requires
        ids@ == Seq::new(tasks.len(), |i: int| tasks[i].id),
        tasks.len() <= u32::MAX,
        proto_fits(entry.proto, nf as nat),
        !long_task(entry.proto),
        members_recorded(tasks, entry.proto),
    ensures
        match result {
            Ok(t) => bake_error(entry) is None && baked_task(tasks, entry, t) && t.wf(
                tasks.len(),
                nf as nat,
            ),
            Err(e) => bake_error(entry) matches Some(text) && e.is_builder(text),
        },
{
    let type_id: Option<u64> = match entry.id {
        SubtaskRef::Fn(task) => Some(task),
        SubtaskRef::Synthetic(_) => None,
    };
    let name = entry.name;
    match entry.proto {
        TaskProto::Compound { methods, policy } => {
            if methods.len() == 0 {
                let text = join3(
                    "compound task `",
                    name_text(name),
                    "` has no branches — it can never decompose",
                );
                return Err(HtnError::builder(text));
            }
            let ghost all = methods@;
            let mut rest = reversed(methods);
            let mut baked: Vec<Method<M>> = Vec::new();
            while rest.len() > 0
                invariant
                    ids@ == Seq::new(tasks.len(), |i: int| tasks[i].id),
                    tasks.len() <= u32::MAX,
                    entry.proto == (TaskProto::<M>::Compound { methods, policy }),
                    entry.name == name,
                    all == methods@,
                    all.len() > 0,
                    all.len() <= u32::MAX,
                    rest@.len() + baked@.len() == all.len(),
                    forall|i: int| 0 <= i < rest@.len() ==> rest@[i] == all[all.len() - 1 - i],
                    forall|i: int|
                        0 <= i < all.len() ==> method_fits(#[trigger] all[i], nf as nat)
                            && !long_method(all[i]),
                    forall|m: int, k: int|
                        0 <= m < all.len() && 0 <= k < all[m].subtasks@.len() ==> recorded(
                            tasks,
                            (#[trigger] all[m].subtasks@[k]).task,
                        ),
                    forall|i: int|
                        0 <= i < baked@.len() ==> baked_method(tasks, all[i], #[trigger] baked@[i])
                            && baked@[i].wf(tasks.len(), nf as nat),
                    first_order_error(all, text_of(name), 0) == first_order_error(
                        all,
                        text_of(name),
                        baked@.len(),
                    ),
                decreases rest@.len(),
            {
                let ghost n = baked@.len();
                let m = rest.pop().unwrap();
                assert(m == all[n as int]);
                assert(method_fits(all[n as int], nf as nat));
                match bake_method(m, name, ids, nf, Ghost(tasks)) {
                    Ok(b) => {
                        baked.push(b);
                    },
                    Err(e) => {
                        return Err(e);
                    },
                }
            }
            Ok(Task::Compound(CompoundTask { name, type_id, policy, methods: baked }))
        },
        TaskProto::Primitive { preconditions, effects, expected_effects, action, cost } => {
            let mut guaranteed_slot_list: Vec<usize> = Vec::new();
            crate::domain::collect_writes(&effects, &mut guaranteed_slot_list);
            let mut write_slot_list: Vec<usize> = Vec::new();
            crate::domain::collect_writes(&effects, &mut write_slot_list);
            crate::domain::collect_writes(&expected_effects, &mut write_slot_list);
            assert(guaranteed_slot_list@ =~= writes_of(effects@));
            assert(write_slot_list@ =~= writes_of(effects@) + writes_of(expected_effects@));
            Ok(
                Task::Primitive(
                    PrimitiveTask {
                        name,
                        type_id,
                        preconditions,
                        effects,
                        expected_effects,
                        action,
                        cost,
                        write_slot_list,
                        guaranteed_slot_list,
                    },
                ),
            )
        },
    }
}

proof fn lemma_task_wf_grows<M: PlanModel>(t: Task<M>, a: nat, b: nat, nf: nat)
    requires
        t.wf(a, nf),
        a <= b,
    ensures
        t.wf(b, nf),
{
    if let Task::Compound(c) = t {
        assert forall|i: int| 0 <= i < c.methods@.len() implies (#[trigger] c.methods@[i]).wf(
            b,
            nf,
        ) by {
            assert(c.methods@[i].wf(a, nf));
            assert forall|k: int| 0 <= k < c.methods@[i].subtasks@.len() implies (
            #[trigger] c.methods@[i].subtasks@[k]) < b by {}
        }
    }
}

// ---- the builder -----------------------------------------------------------

impl<M: PlanModel> DomainBuilder<M> {
    /// Whether the builder is consistent: so is its recording, no function is
    /// left to record, the root is recorded, and goals fit the slots.
    pub open spec fn wf(&self) -> bool {
        &&& self.rec.wf()
        &&& self.rec.queue@.len() == 0
        &&& self.rec.tasks@.len() > 0
        &&& forall|g: int|
            0 <= g < self.goals@.len() ==> effects_fit(
                (#[trigger] self.goals@[g]).effects@,
                self.rec.registry.slots@.len(),
            )
    }

    /// Marks a task function as shared: its primitive runs at most once per
    /// plan.
    #[must_use]
    pub fn share_task(self, task: u64) -> (b: DomainBuilder<M>)
        requires
            self.wf(),
        ensures
            b.wf(),
            b.rec.shares@ == self.rec.shares@.push(task),
            b == (DomainBuilder {
                rec: Recorder { shares: b.rec.shares, ..self.rec },
                goals: self.goals,
            }),
    {
        let mut b = self;
        b.rec.shares.push(task);
        b
    }

    /// Compiles task insertion in.
    #[must_use]
    pub fn with_insertion(self) -> (b: DomainBuilder<M>)
        requires
            self.wf(),
        ensures
            b.wf(),
            b == (DomainBuilder {
                rec: Recorder { insertion: true, ..self.rec },
                goals: self.goals,
            }),
    {
        let mut b = self;
        b.rec.insertion = true;
        b
    }

    /// Registers an additional root: a second compound entry point into the
    /// same network.
    #[must_use]
    pub fn root<S: TaskSource<M>>(self, source: &S, task: u64, name: Ustr) -> (b: DomainBuilder<M>)
        requires
            self.wf(),
        ensures
            b.wf(),
            b.goals == self.goals,
            b.rec.extra_roots@ == self.rec.extra_roots@.push(task),
            exists|drafts: Seq<TaskBuilder<M>>, start: Recorder<M>, end: Recorder<M>|
                reached(self.rec, task, name, start) && #[trigger] expansion(
                    *source,
                    start,
                    end,
                    drafts,
                ) && b.rec == (Recorder { extra_roots: b.rec.extra_roots, ..end }),
    {
        let mut b = reach(self, source, task, name);
        let ghost end = b.rec;
        b.rec.extra_roots.push(task);
        proof {
            let (drafts, start) = choose|drafts: Seq<TaskBuilder<M>>, start: Recorder<M>|
                reached(self.rec, task, name, start) && #[trigger] expansion(
                    *source,
                    start,
                    end,
                    drafts,
                );
            assert(expansion(*source, start, end, drafts));
        }
        b
    }

    /// Records a task that no branch needs to refer to, and offers it for
    /// insertion.
    #[must_use]
    pub fn insertable<S: TaskSource<M>>(self, source: &S, task: u64, name: Ustr) -> (b:
        DomainBuilder<M>)
        requires
            self.wf(),
        ensures
            b.wf(),
            b.goals == self.goals,
            b.rec.insertables@ == self.rec.insertables@.push(task),
            exists|drafts: Seq<TaskBuilder<M>>, start: Recorder<M>, end: Recorder<M>|
                reached(self.rec, task, name, start) && #[trigger] expansion(
                    *source,
                    start,
                    end,
                    drafts,
                ) && b.rec == (Recorder { insertables: b.rec.insertables, ..end }),
    {
        let mut b = reach(self, source, task, name);
        let ghost end = b.rec;
        b.rec.insertables.push(task);
        proof {
            let (drafts, start) = choose|drafts: Seq<TaskBuilder<M>>, start: Recorder<M>|
                reached(self.rec, task, name, start) && #[trigger] expansion(
                    *source,
                    start,
                    end,
                    drafts,
                );
            assert(expansion(*source, start, end, drafts));
        }
        b
    }

    /// Registers a goal, with what its function declared.
    #[must_use]
    pub fn goal(self, task: u64, name: Ustr, draft: GoalBuilder<M>) -> (b: DomainBuilder<M>)
        requires
            self.wf(),
        ensures
            b.wf(),
            b.goals@.len() == self.goals@.len() + 1,
            b.goals@.drop_last() == self.goals@,
            b.goals@.last().task == task,
            b.goals@.last().name == name,
            compiled_effects(b.rec.registry.slots@, draft.effects@, b.goals@.last().effects@),
            b.rec.registry.slots@ == registered_all(
                self.rec.registry.slots@,
                effect_params(draft.effects@, draft.effects@.len()),
                effect_params(draft.effects@, draft.effects@.len()).len(),
            ),
            twice_added(
                b.rec.effect_errors@,
                self.rec.effect_errors@,
                twice_count(draft.effects@, draft.effects@.len()),
            ),
            b.rec == (Recorder {
                registry: b.rec.registry,
                effect_errors: b.rec.effect_errors,
                ..self.rec
            }),
    {
        let mut b = self;
        let effects = compile_effects(
            &mut b.rec.registry,
            &mut b.rec.effect_errors,
            draft.effects,
        );
        let ghost before = b.goals@;
        b.goals.push(GoalEntry { name, task, effects });
        proof {
            assert(b.goals@.drop_last() =~= before);
            let wide = b.rec.registry.slots@.len();
            lemma_wider_wf(self.rec, b.rec);
            assert forall|g: int| 0 <= g < b.goals@.len() implies effects_fit(
                (#[trigger] b.goals@[g]).effects@,
                wide,
            ) by {
                if g < before.len() {
                    assert(b.goals@[g] == before[g]);
                    lemma_effects_fit_grow(
                        before[g].effects@,
                        self.rec.registry.slots@.len(),
                        wide,
                    );
                }
            }
        }
        b
    }
}

/// More slots keep a recording consistent.
proof fn lemma_wider_wf<M: PlanModel>(a: Recorder<M>, b: Recorder<M>)
    requires
        a.wf(),
        a.registry.slots@.len() <= b.registry.slots@.len(),
        b.tasks == a.tasks,
        b.queue == a.queue,
        b.next_synthetic == a.next_synthetic,
    ensures
        b.wf(),
{
    assert forall|i: int| 0 <= i < b.tasks@.len() implies proto_fits(
        (#[trigger] b.tasks@[i]).proto,
        b.registry.slots@.len(),
    ) by {
        lemma_proto_fits_grows(
            a.tasks@[i].proto,
            a.registry.slots@.len(),
            b.registry.slots@.len(),
        );
    }
}

/// Whether recording `b` is recording `a` with a task function queued.
pub open spec fn reached<M: PlanModel>(
    a: Recorder<M>,
    task: u64,
    name: Ustr,
    b: Recorder<M>,
) -> bool {
    b.queue@ == a.queue@.push((task, name)) && b == (Recorder { queue: b.queue, ..a })
}

/// Records a task function, and whatever it reaches, where that is not recorded
/// yet.
fn reach<M: PlanModel, S: TaskSource<M>>(
    builder: DomainBuilder<M>,
    source: &S,
    task: u64,
    name: Ustr,
) -> (b: DomainBuilder<M>)
    requires
        builder.rec.wf(),
        builder.rec.queue@.len() == 0,
        forall|g: int|
            0 <= g < builder.goals@.len() ==> effects_fit(
                (#[trigger] builder.goals@[g]).effects@,
                builder.rec.registry.slots@.len(),
            ),
    ensures
        b.wf(),
        b.goals == builder.goals,
        exists|drafts: Seq<TaskBuilder<M>>, start: Recorder<M>|
            reached(builder.rec, task, name, start) && #[trigger] expansion(
                *source,
                start,
                b.rec,
                drafts,
            ),
        builder.rec.tasks@.len() == 0 ==> b.rec.tasks@[0].id == SubtaskRef::Fn(task),
{
    let mut b = builder;
    let ghost a = b.rec;
    b.rec.queue.push_back((task, name));
    let ghost start = b.rec;
    proof {
        assert(reached(a, task, name, start));
        assert forall|i: int| 0 <= i < start.tasks@.len() implies members_known(
            start.tasks@,
            start.queue@,
            (#[trigger] start.tasks@[i]).proto,
        ) by {
            assert(members_known(a.tasks@, a.queue@, a.tasks@[i].proto));
            if let TaskProto::Compound { methods, policy } = a.tasks@[i].proto {
                assert forall|m: int, k: int|
                    0 <= m < methods@.len() && 0 <= k < methods@[m].subtasks@.len() implies {
                    let r = (#[trigger] methods@[m].subtasks@[k]).task;
                    recorded(start.tasks@, r) || (r matches SubtaskRef::Fn(id)
                        && crate::recording::queued(start.queue@, id))
                } by {
                    let r = methods@[m].subtasks@[k].task;
                    assert(recorded(a.tasks@, r));
                }
            }
        }
    }
    b.rec.expand(source);
    proof {
        let drafts = choose|drafts: Seq<TaskBuilder<M>>|
            #[trigger] expansion(*source, start, b.rec, drafts);
        assert(expansion(*source, start, b.rec, drafts));
        crate::recording::lemma_registered_extends(
            a.registry.slots@,
            crate::recording::drafts_params(drafts),
            crate::recording::drafts_params(drafts).len(),
        );
        assert forall|g: int| 0 <= g < b.goals@.len() implies effects_fit(
            (#[trigger] b.goals@[g]).effects@,
            b.rec.registry.slots@.len(),
        ) by {
            lemma_effects_fit_grow(
                b.goals@[g].effects@,
                a.registry.slots@.len(),
                b.rec.registry.slots@.len(),
            );
        }
        // The queued function is recorded: it was, or it is reached first.
        let refs = start.queue@ + crate::recording::drafts_refs(drafts);
        assert(refs[0] == (task, name));
        if a.tasks@.len() == 0 {
            crate::recording::lemma_first_is_fresh(start.tasks@, refs, refs.len());
            let first: int = 0;
            assert(b.rec.tasks@[start.tasks@.len() + first].id == SubtaskRef::Fn(task));
        }
        assert(b.rec.tasks@.len() > 0);
    }
    b
}

impl<M: PlanModel> HtnDomain<M> {
    /// Begins building a domain from a root task function: the function and
    /// whatever it refers to, directly or not, are recorded, the root first.
    pub fn from_root<S: TaskSource<M>>(source: &S, task: u64, name: Ustr) -> (b: DomainBuilder<M>)
        ensures
            b.wf(),
            b.goals@.len() == 0,
            b.rec.tasks@[0].id == SubtaskRef::Fn(task),
            exists|drafts: Seq<TaskBuilder<M>>, start: Recorder<M>|
                start.queue@ == seq![(task, name)] && start.tasks@.len() == 0
                    && start.registry.slots@.len() == 0 && start.errors@.len() == 0
                    && start.effect_errors@.len() == 0 && start.next_synthetic == 0
                    && start.shares@.len() == 0 && start.insertables@.len() == 0
                    && !start.insertion && start.extra_roots@.len() == 0 && #[trigger] expansion(
                    *source,
                    start,
                    b.rec,
                    drafts,
                ),
    {
        let rec: Recorder<M> = Recorder::new();
        let ghost empty = rec;
        let builder = DomainBuilder { rec, goals: Vec::new() };
        let b = reach(builder, source, task, name);
        proof {
            let (drafts, start) = choose|drafts: Seq<TaskBuilder<M>>, start: Recorder<M>|
                reached(empty, task, name, start) && #[trigger] expansion(
                    *source,
                    start,
                    b.rec,
                    drafts,
                );
            assert(start.queue@ =~= seq![(task, name)]);
            assert(expansion(*source, start, b.rec, drafts));
        }
        b
    }
}

// ---- build -----------------------------------------------------------------

/// What is wrong with the first additional root from `k` on that is not
/// compound, if any is.
pub open spec fn extra_root_error<M: PlanModel>(
    tasks: Seq<TaskEntry<M>>,
    roots: Seq<u64>,
    k: nat,
) -> Option<Seq<char>>
    decreases roots.len() - k,
{
    if k >= roots.len() {
        None
    } else {
        match entry_of(tasks, SubtaskRef::Fn(roots[k as int])) {
            Some(i) if !(tasks[i as int].proto is Compound) => Some(
                "extra root `"@ + text_of(tasks[i as int].name) + "` must be a compound task"@,
            ),
            _ => extra_root_error(tasks, roots, k + 1),
        }
    }
}

/// Whether one of the first `k` goals has this identity.
pub open spec fn goal_known<M: PlanModel>(goals: Seq<GoalEntry<M>>, task: u64, k: nat) -> bool {
    exists|j: int| 0 <= j < k && (#[trigger] goals[j]).task == task
}

/// What is wrong with the first goal from `k` on whose identity is taken, if any
/// is.
pub open spec fn goal_error<M: PlanModel>(
    tasks: Seq<TaskEntry<M>>,
    goals: Seq<GoalEntry<M>>,
    k: nat,
) -> Option<Seq<char>>
    decreases goals.len() - k,
{
    if k >= goals.len() {
        None
    } else if recorded(tasks, SubtaskRef::Fn(goals[k as int].task)) || goal_known(
        goals,
        goals[k as int].task,
        k,
    ) {
        Some(
            "duplicate goal function `"@ + text_of(goals[k as int].name)
                + "` (a goal function may be registered once)"@,
        )
    } else {
        goal_error(tasks, goals, k + 1)
    }
}

/// The message for a domain that is larger than indices reach.
pub open spec fn large_message() -> Seq<char> {
    "the domain has more tasks, branches or members than 32-bit indices reach"@
}

/// The message for a root that is not compound.
pub open spec fn root_message() -> Seq<char> {
    "the root task function declared no branches — forward planning needs a compound root"@
}

/// What keeps a recording from being baked, if anything: every authoring error
/// that was collected, or else the first thing that is wrong.
pub open spec fn build_errors<M: PlanModel>(rec: Recorder<M>, goals: Seq<GoalEntry<M>>) -> Option<
    Seq<Seq<char>>,
> {
    if rec.errors@.len() + rec.effect_errors@.len() > 0 {
        Some(texts(rec.errors@) + texts(rec.effect_errors@))
    } else if extra_root_error(rec.tasks@, rec.extra_roots@, 0) is Some {
        Some(seq![extra_root_error(rec.tasks@, rec.extra_roots@, 0)->Some_0])
    } else if too_large(rec.tasks@, goals.len()) {
        Some(seq![large_message()])
    } else if first_bake_error(rec.tasks@, 0) is Some {
        Some(seq![first_bake_error(rec.tasks@, 0)->Some_0])
    } else if goal_error(rec.tasks@, goals, 0) is Some {
        Some(seq![goal_error(rec.tasks@, goals, 0)->Some_0])
    } else if !(rec.tasks@[0].proto is Compound) {
        Some(seq![root_message()])
    } else {
        None
    }
}

/// Whether an error lists exactly these entries.
pub open spec fn lists(e: HtnError, entries: Seq<Seq<char>>) -> bool {
    e matches HtnError::Builder { errors } && texts(errors@) == entries
}

/// Whether a domain is the baked form of a recording and goals.
pub open spec fn domain_of<M: PlanModel>(
    rec: Recorder<M>,
    goals: Seq<GoalEntry<M>>,
    d: HtnDomain<M>,
) -> bool {
    let n = rec.tasks@.len();
    &&& d.wf()
    &&& d.baked()
    &&& d.summarized()
    &&& d.root == 0
    &&& d.components.slots@ == rec.registry.slots@
    &&& d.tasks@.len() == n + goals.len()
    &&& forall|i: int|
        0 <= i < n ==> baked_task(rec.tasks@, rec.tasks@[i], #[trigger] d.tasks@[i])
    &&& forall|g: int|
        0 <= g < goals.len() ==> (#[trigger] d.tasks@[n + g]) == Task::<M>::Goal(
            GoalTask {
                name: goals[g].name,
                type_id: goals[g].task,
                effects: goals[g].effects,
            },
        )
}

/// A goal of a built domain is never a member of a branch, however many goals are
/// registered.
pub proof fn goals_are_no_members<M: PlanModel>(
    rec: Recorder<M>,
    goals: Seq<GoalEntry<M>>,
    d: HtnDomain<M>,
)
    requires
        domain_of(rec, goals, d),
    ensures
        no_goal_members(d),
{
    let n = rec.tasks@.len();
    assert forall|t: int, i: int, k: int|
        0 <= t < d.tasks@.len() && d.tasks@[t] is Compound && 0 <= i
            < d.tasks@[t]->Compound_0.methods@.len() && 0 <= k
            < d.tasks@[t]->Compound_0.methods@[i].subtasks@.len() implies !(
    d.tasks@[#[trigger] d.tasks@[t]->Compound_0.methods@[i].subtasks@[k] as int] is Goal) by {
        if t >= n {
            assert(d.tasks@[n + (t - n)] is Goal);
        }
        assert(baked_task(rec.tasks@, rec.tasks@[t], d.tasks@[t]));
        let x = rec.tasks@[t].proto->methods@[i];
        let m = d.tasks@[t]->Compound_0.methods@[i];
        assert(baked_method(rec.tasks@, x, m));
        assert(entry_of(rec.tasks@, x.subtasks@[k].task) == Some(m.subtasks@[k] as usize));
        lemma_entry_found(rec.tasks@, x.subtasks@[k].task, 0);
        let u = m.subtasks@[k] as int;
        assert(baked_task(rec.tasks@, rec.tasks@[u], d.tasks@[u]));
    }
}

/// Whether `result` is what building comes to: sharing is compiled in (`mid`),
/// then insertion (`end`), then the recording is validated and baked.
pub open spec fn built<M: PlanModel>(
    rec: Recorder<M>,
    goals: Seq<GoalEntry<M>>,
    mid: Recorder<M>,
    sharings: Seq<Sharing>,
    end: Recorder<M>,
    result: HtnResult<HtnDomain<M>>,
) -> bool {
    if rec.next_synthetic + rec.shares@.len() >= u32::MAX {
        result matches Err(e) && e.is_builder(large_message())
    } else if first_share_error(rec.tasks@, rec.shares@, 0) is Some {
        result matches Err(e) && e.is_builder(
            first_share_error(rec.tasks@, rec.shares@, 0)->Some_0,
        )
    } else {
        &&& if rec.shares@.len() == 0 {
            mid == rec && sharings.len() == 0
        } else {
            shared(rec, mid, sharings)
        }
        &&& {
            let inserts = mid.insertion && mid.insertables@.len() > 0;
            let wrong = first_insertable_error(mid.tasks@, mid.insertables@, 0);
            if inserts && wrong is Some {
                result matches Err(e) && e.is_builder(wrong->Some_0)
            } else {
                &&& if inserts {
                    inserted(mid, end, sharings)
                } else {
                    end == mid
                }
                &&& match build_errors(end, goals) {
                    Some(entries) => result matches Err(e) && lists(e, entries),
                    None => result matches Ok(d) && domain_of(end, goals, d),
                }
            }
        }
    }
}

/// Whether one of the first `k` goals has this identity.
fn has_goal<M: PlanModel>(goals: &Vec<GoalEntry<M>>, task: u64, k: usize) -> (b: bool)
    requires
        k <= goals@.len(),
    ensures
        b == goal_known(goals@, task, k as nat),
{
    for j in 0..k
        invariant
            k <= goals@.len(),
            forall|i: int| 0 <= i < j ==> (#[trigger] goals@[i]).task != task,
    {
        if goals[j].task == task {
            return true;
        }
    }
    false
}

proof fn lemma_single(e: HtnError, entry: Seq<char>)
    requires
        e.is_builder(entry),
    ensures
        lists(e, seq![entry]),
{
    let errors = e->Builder_errors;
    assert(texts(errors@) =~= seq![entry]);
}

/// The first additional root that is not compound, as an error.
fn check_extra_roots<M: PlanModel>(rec: &Recorder<M>) -> (error: Option<HtnError>)
    ensures
        match error {
            Some(e) => extra_root_error(rec.tasks@, rec.extra_roots@, 0) matches Some(text)
                && e.is_builder(text),
            None => extra_root_error(rec.tasks@, rec.extra_roots@, 0) is None,
        },
{
    for k in 0..rec.extra_roots.len()
        invariant
            extra_root_error(rec.tasks@, rec.extra_roots@, 0) == extra_root_error(
                rec.tasks@,
                rec.extra_roots@,
                k as nat,
            ),
    {
        match find_entry(&rec.tasks, SubtaskRef::Fn(rec.extra_roots[k])) {
            Some(i) => {
                let compound = match &rec.tasks[i].proto {
                    TaskProto::Compound { .. } => true,
                    TaskProto::Primitive { .. } => false,
                };
                if !compound {
                    let text = join3(
                        "extra root `",
                        name_text(rec.tasks[i].name),
                        "` must be a compound task",
                    );
                    return Some(HtnError::builder(text));
                }
            },
            None => {},
        }
    }
    None
}

/// The first goal whose identity is taken, as an error.
fn check_goals<M: PlanModel>(
    tasks: &Vec<TaskEntry<M>>,
    goals: &Vec<GoalEntry<M>>,
) -> (error: Option<HtnError>)
    ensures
        match error {
            Some(e) => goal_error(tasks@, goals@, 0) matches Some(text) && e.is_builder(text),
            None => goal_error(tasks@, goals@, 0) is None,
        },
{
    for k in 0..goals.len()
        invariant
            goal_error(tasks@, goals@, 0) == goal_error(tasks@, goals@, k as nat),
    {
        let r = SubtaskRef::Fn(goals[k].task);
        let known = find_entry(tasks, r).is_some();
        proof {
            assert(tasks.len() <= usize::MAX);
            lemma_entry_found(tasks@, r, 0);
            assert(known == recorded(tasks@, r)) by {
                if known {
                    assert(tasks@[entry_of(tasks@, r)->Some_0 as int].id == r);
                }
            }
        }
        if known || has_goal(goals, goals[k].task, k) {
            let text = join3(
                "duplicate goal function `",
                name_text(goals[k].name),
                "` (a goal function may be registered once)",
            );
            return Some(HtnError::builder(text));
        }
    }
    None
}

/// Bakes every recorded task.
fn bake_tasks<M: PlanModel>(tasks: Vec<TaskEntry<M>>, nf: usize) -> (result: HtnResult<
    Vec<Task<M>>,
>)
    requires
        tasks@.len() <= u32::MAX,
        forall|i: int|
            0 <= i < tasks@.len() ==> proto_fits((#[trigger] tasks@[i]).proto, nf as nat)
                && !long_task(tasks@[i].proto) && members_recorded(tasks@, tasks@[i].proto),
    ensures
        match result {
            Ok(baked) => {
                &&& first_bake_error(tasks@, 0) is None
                &&& baked@.len() == tasks@.len()
                &&& forall|i: int|
                    0 <= i < baked@.len() ==> baked_task(tasks@, tasks@[i], #[trigger] baked@[i])
                        && baked@[i].wf(tasks@.len(), nf as nat)
            },
            Err(e) => first_bake_error(tasks@, 0) matches Some(text) && e.is_builder(text),
        },
{
    let ids = task_refs(&tasks);
    let ghost all = tasks@;
    let mut rest = reversed(tasks);
    let mut baked: Vec<Task<M>> = Vec::new();
    while rest.len() > 0
        invariant
            all == tasks@,
            ids@ == Seq::new(all.len(), |i: int| all[i].id),
            all.len() <= u32::MAX,
            forall|i: int|
                0 <= i < all.len() ==> proto_fits((#[trigger] all[i]).proto, nf as nat)
                    && !long_task(all[i].proto) && members_recorded(all, all[i].proto),
            rest@.len() + baked@.len() == all.len(),
            forall|i: int| 0 <= i < rest@.len() ==> rest@[i] == all[all.len() - 1 - i],
            forall|i: int|
                0 <= i < baked@.len() ==> baked_task(all, all[i], #[trigger] baked@[i])
                    && baked@[i].wf(all.len(), nf as nat),
            first_bake_error(all, 0) == first_bake_error(all, baked@.len()),
        decreases rest@.len(),
    {
        let ghost n = baked@.len();
        let entry = rest.pop().unwrap();
        assert(entry == all[n as int]);
        assert(proto_fits(all[n as int].proto, nf as nat));
        match bake_task(entry, &ids, nf, Ghost(all)) {
            Ok(t) => {
                baked.push(t);
            },
            Err(e) => {
                return Err(e);
            },
        }
    }
    Ok(baked)
}

/// Baking facts added to a task leave it the baked form of what was recorded.
proof fn lemma_same_task_baked<M: PlanModel>(
    tasks: Seq<TaskEntry<M>>,
    entry: TaskEntry<M>,
    a: Task<M>,
    b: Task<M>,
)
    requires
        baked_task(tasks, entry, a),
        same_task(a, b),
    ensures
        baked_task(tasks, entry, b),
{
    if let Task::Compound(x) = a {
        let y = b->Compound_0;
        let methods = entry.proto->methods;
        assert forall|i: int| 0 <= i < methods@.len() implies baked_method(
            tasks,
            methods@[i],
            #[trigger] y.methods@[i],
        ) by {
            assert(same_method(x.methods@[i], y.methods@[i]));
            assert(baked_method(tasks, methods@[i], x.methods@[i]));
        }
    }
}

impl<M: PlanModel> DomainBuilder<M> {
    /// Validates and bakes the domain. Every authoring error that recording
    /// collected is reported together; otherwise the first thing that is wrong.
    pub fn build(self) -> (result: HtnResult<HtnDomain<M>>)
        requires
            self.wf(),
        ensures
            exists|mid: Recorder<M>, sharings: Seq<Sharing>, end: Recorder<M>|
                #[trigger] built(self.rec, self.goals@, mid, sharings, end, result),
    {
        let ghost start = self.rec;
        let ghost goals = self.goals@;
        let mut rec = self.rec;
        if rec.shares.len() >= (u32::MAX - rec.next_synthetic) as usize {
            let result = Err(
                HtnError::builder(
                    "the domain has more tasks, branches or members than 32-bit indices reach".to_owned(),
                ),
            );
            assert(built(start, goals, start, Seq::empty(), start, result));
            return result;
        }
        let sharings = match apply_sharing(&mut rec) {
            Ok(sharings) => sharings,
            Err(e) => {
                let result = Err(e);
                assert(built(start, goals, start, Seq::empty(), start, result));
                return result;
            },
        };
        let ghost mid = rec;
        proof {
            assert forall|i: int| 0 <= i < sharings@.len() implies recorded(
                mid.tasks@,
                (#[trigger] sharings@[i]).wrapper,
            ) by {
                let n = start.tasks@.len();
                assert(crate::gtn::is_wrapper(
                    mid.tasks@[n + i],
                    start.tasks@[entry_of(
                        start.tasks@,
                        SubtaskRef::Fn(start.shares@[i]),
                    )->Some_0 as int],
                    SubtaskRef::Synthetic((start.next_synthetic + i) as u32),
                    i as nat,
                    crate::state::registered_at(
                        start.registry.slots@,
                        crate::state::SlotKey::SharedMarks,
                    ),
                ));
                assert(mid.tasks@[n + i].id == sharings@[i].wrapper);
            }
        }
        match apply_insertion(&mut rec, &sharings) {
            Ok(_) => {},
            Err(e) => {
                let result = Err(e);
                assert(built(start, goals, mid, sharings@, mid, result));
                return result;
            },
        }
        let ghost end = rec;
        let goals_len: usize = self.goals.len();
        if rec.errors.len() > 0 || rec.effect_errors.len() > 0 {
            let mut errors = rec.errors;
            let mut more = rec.effect_errors;
            let ghost first = errors@;
            let ghost second = more@;
            errors.append(&mut more);
            assert(errors@ == first + second);
            assert(texts(errors@) =~= texts(first) + texts(second));
            let result = Err(HtnError::Builder { errors });
            assert(built(start, goals, mid, sharings@, end, result));
            return result;
        }
        match check_extra_roots(&rec) {
            Some(e) => {
                proof {
                    lemma_single(e, extra_root_error(end.tasks@, end.extra_roots@, 0)->Some_0);
                }
                let result = Err(e);
                assert(built(start, goals, mid, sharings@, end, result));
                return result;
            },
            None => {},
        }
        if is_too_large(&rec.tasks, goals_len) {
            let e = HtnError::builder(
                "the domain has more tasks, branches or members than 32-bit indices reach".to_owned(),
            );
            proof {
                lemma_single(e, large_message());
            }
            let result = Err(e);
            assert(built(start, goals, mid, sharings@, end, result));
            return result;
        }
        let goal_mistake = check_goals(&rec.tasks, &self.goals);
        let compound_root = match &rec.tasks[0].proto {
            TaskProto::Compound { .. } => true,
            TaskProto::Primitive { .. } => false,
        };
        let nf: usize = rec.registry.len();
        proof {
            assert(end.queue@.len() == 0);
            assert forall|i: int| 0 <= i < end.tasks@.len() implies proto_fits(
                (#[trigger] end.tasks@[i]).proto,
                nf as nat,
            ) && !long_task(end.tasks@[i].proto) && members_recorded(
                end.tasks@,
                end.tasks@[i].proto,
            ) by {
                assert(members_known(end.tasks@, end.queue@, end.tasks@[i].proto));
                if let TaskProto::Compound { methods, policy } = end.tasks@[i].proto {
                    assert forall|m: int, k: int|
                        0 <= m < methods@.len() && 0 <= k < methods@[m].subtasks@.len() implies recorded(
                        end.tasks@,
                        (#[trigger] methods@[m].subtasks@[k]).task,
                    ) by {}
                }
            }
        }
        let mut tasks = match bake_tasks(rec.tasks, nf) {
            Ok(tasks) => tasks,
            Err(e) => {
                proof {
                    lemma_single(e, first_bake_error(end.tasks@, 0)->Some_0);
                }
                let result = Err(e);
                assert(built(start, goals, mid, sharings@, end, result));
                return result;
            },
        };
        match goal_mistake {
            Some(e) => {
                proof {
                    lemma_single(e, goal_error(end.tasks@, goals, 0)->Some_0);
                }
                let result = Err(e);
                assert(built(start, goals, mid, sharings@, end, result));
                return result;
            },
            None => {},
        }
        if !compound_root {
            let e = HtnError::builder(
                "the root task function declared no branches — forward planning needs a compound root".to_owned(),
            );
            proof {
                lemma_single(e, root_message());
            }
            let result = Err(e);
            assert(built(start, goals, mid, sharings@, end, result));
            return result;
        }
        let ghost n = end.tasks@.len();
        let ghost baked = tasks@;
        let mut rest = reversed(self.goals);
        while rest.len() > 0
            invariant
                n == baked.len(),
                rest@.len() + tasks@.len() == n + goals.len(),
                tasks@.len() >= n,
                forall|i: int| 0 <= i < rest@.len() ==> rest@[i] == goals[goals.len() - 1 - i],
                forall|i: int| 0 <= i < n ==> (#[trigger] tasks@[i]) == baked[i],
                forall|g: int|
                    0 <= g < tasks@.len() - n ==> (#[trigger] tasks@[n + g]) == Task::<M>::Goal(
                        GoalTask {
                            name: goals[g].name,
                            type_id: goals[g].task,
                            effects: goals[g].effects,
                        },
                    ),
            decreases rest@.len(),
        {
            let ghost before = tasks@;
            let ghost g0 = tasks@.len() - n;
            let goal = rest.pop().unwrap();
            assert(goal == goals[g0]);
            tasks.push(
                Task::Goal(
                    GoalTask { name: goal.name, type_id: goal.task, effects: goal.effects },
                ),
            );
            assert forall|g: int| 0 <= g < tasks@.len() - n implies (#[trigger] tasks@[n + g])
                == Task::<M>::Goal(
                GoalTask {
                    name: goals[g].name,
                    type_id: goals[g].task,
                    effects: goals[g].effects,
                },
            ) by {
                if g < g0 {
                    assert(tasks@[n + g] == before[n + g]);
                }
            }
        }
        let ghost whole = tasks@;
        let mut domain = HtnDomain {
            tasks,
            root: 0,
            components: rec.registry.freeze(),
            summaries: Vec::new(),
        };
        proof {
            assert forall|i: int| 0 <= i < whole.len() implies (#[trigger] whole[i]).wf(
                whole.len(),
                nf as nat,
            ) by {
                if i < n {
                    assert(whole[i] == baked[i]);
                    lemma_task_wf_grows(baked[i], n, whole.len(), nf as nat);
                } else {
                    let g = i - n;
                    assert(whole[n + g] is Goal);
                    lemma_goals_fit(self, mid, sharings@, end);
                    assert(effects_fit(goals[g].effects@, nf as nat));
                }
            }
        }
        compute_summaries(&mut domain);
        proof {
            assert forall|i: int| 0 <= i < n implies baked_task(
                end.tasks@,
                end.tasks@[i],
                #[trigger] domain.tasks@[i],
            ) by {
                assert(whole[i] == baked[i]);
                lemma_same_task_baked(end.tasks@, end.tasks@[i], baked[i], domain.tasks@[i]);
            }
            assert forall|g: int| 0 <= g < goals.len() implies (#[trigger] domain.tasks@[n + g])
                == Task::<M>::Goal(
                GoalTask {
                    name: goals[g].name,
                    type_id: goals[g].task,
                    effects: goals[g].effects,
                },
            ) by {
                assert(same_task(whole[n + g], domain.tasks@[n + g]));
            }
        }
        let result = Ok(domain);
        assert(built(start, goals, mid, sharings@, end, result));
        result
    }
}

/// Goals still fit the slots after sharing and insertion.
proof fn lemma_goals_fit<M: PlanModel>(
    b: DomainBuilder<M>,
    mid: Recorder<M>,
    sharings: Seq<Sharing>,
    end: Recorder<M>,
)
    requires
        b.wf(),
        if b.rec.shares@.len() == 0 {
            mid == b.rec
        } else {
            shared(b.rec, mid, sharings)
        },
        end == mid || inserted(mid, end, sharings),
    ensures
        forall|g: int|
            0 <= g < b.goals@.len() ==> effects_fit(
                (#[trigger] b.goals@[g]).effects@,
                end.registry.slots@.len(),
            ),
{
    assert(b.rec.registry.slots@.len() <= end.registry.slots@.len());
    assert forall|g: int| 0 <= g < b.goals@.len() implies effects_fit(
        (#[trigger] b.goals@[g]).effects@,
        end.registry.slots@.len(),
    ) by {
        lemma_effects_fit_grow(
            b.goals@[g].effects@,
            b.rec.registry.slots@.len(),
            end.registry.slots@.len(),
        );
    }
}

/// Whether the order of a branch's members can be baked: it is a chain, or it has
/// no more members than fit a mask, constrains members that it has, and leaves
/// them an order.
pub open spec fn orderable<M: PlanModel>(m: MethodProto<M>) -> bool {
    ||| !m.unordered && m.edges@.len() == 0
    ||| {
        &&& m.subtasks@.len() <= 64
        &&& forall|i: int|
            0 <= i < m.edges@.len() ==> (#[trigger] m.edges@[i]).0 < m.subtasks@.len()
                && m.edges@[i].1 < m.subtasks@.len()
        &&& topo_orders(preds_of(m)).len() > 0
    }
}

/// Whether a task can be baked: a primitive always, and a compound task with
/// branches of which each can be ordered.
pub open spec fn bakeable<M: PlanModel>(entry: TaskEntry<M>) -> bool {
    entry.proto matches TaskProto::Compound { methods, policy } ==> methods@.len() > 0
        && forall|i: int| 0 <= i < methods@.len() ==> orderable(#[trigger] methods@[i])
}

proof fn lemma_order_errors<M: PlanModel>(
    methods: Seq<MethodProto<M>>,
    task: Seq<char>,
    k: nat,
)
    ensures
        first_order_error(methods, task, k) is None <==> forall|i: int|
            k <= i < methods.len() ==> orderable(#[trigger] methods[i]),
    decreases methods.len() - k,
{
    if k < methods.len() {
        lemma_order_errors(methods, task, k + 1);
        let m = methods[k as int];
        assert(order_error(m, task) is None <==> orderable(m));
    }
}

proof fn lemma_bake_errors<M: PlanModel>(tasks: Seq<TaskEntry<M>>, k: nat)
    ensures
        first_bake_error(tasks, k) is None <==> forall|i: int|
            k <= i < tasks.len() ==> bakeable(#[trigger] tasks[i]),
    decreases tasks.len() - k,
{
    if k < tasks.len() {
        lemma_bake_errors(tasks, k + 1);
        let entry = tasks[k as int];
        if let TaskProto::Compound { methods, policy } = entry.proto {
            lemma_order_errors(methods@, text_of(entry.name), 0);
        }
        assert(bake_error(entry) is None <==> bakeable(entry));
    }
}

proof fn lemma_root_errors<M: PlanModel>(tasks: Seq<TaskEntry<M>>, roots: Seq<u64>, k: nat)
    requires
        tasks.len() <= usize::MAX,
        distinct(tasks),
    ensures
        extra_root_error(tasks, roots, k) is None <==> forall|j: int, i: int|
            k <= j < roots.len() && 0 <= i < tasks.len() && (#[trigger] tasks[i]).id
                == SubtaskRef::Fn(#[trigger] roots[j]) ==> tasks[i].proto is Compound,
    decreases roots.len() - k,
{
    if k < roots.len() {
        lemma_root_errors(tasks, roots, k + 1);
        let r = SubtaskRef::Fn(roots[k as int]);
        lemma_entry_found(tasks, r, 0);
        if let Some(at) = entry_of(tasks, r) {
            assert forall|i: int| 0 <= i < tasks.len() && (#[trigger] tasks[i]).id == r implies i
                == at by {
                if i < at {
                    assert(tasks[i].id != tasks[at as int].id);
                } else if at < i {
                    assert(tasks[at as int].id != tasks[i].id);
                }
            }
            if !(tasks[at as int].proto is Compound) {
                assert(tasks[at as int].id == SubtaskRef::Fn(roots[k as int]));
            }
        }
    }
}

proof fn lemma_goal_errors<M: PlanModel>(
    tasks: Seq<TaskEntry<M>>,
    goals: Seq<GoalEntry<M>>,
    k: nat,
)
    ensures
        goal_error(tasks, goals, k) is None <==> forall|g: int|
            k <= g < goals.len() ==> !recorded(tasks, SubtaskRef::Fn((#[trigger] goals[g]).task))
                && !goal_known(goals, goals[g].task, g as nat),
    decreases goals.len() - k,
{
    if k < goals.len() {
        lemma_goal_errors(tasks, goals, k + 1);
    }
}

/// A recording is baked exactly where nothing is wrong with it: no authoring error
/// was collected, every additional root and the root itself are compound, the
/// domain fits its indices, every task can be baked, and every goal is a function
/// of its own.
pub proof fn a_domain_is_baked_where_nothing_is_wrong<M: PlanModel>(
    rec: Recorder<M>,
    goals: Seq<GoalEntry<M>>,
)
    requires
        distinct(rec.tasks@),
    ensures
        build_errors(rec, goals) is None <==> {
            &&& rec.errors@.len() == 0
            &&& rec.effect_errors@.len() == 0
            &&& forall|j: int, i: int|
                0 <= j < rec.extra_roots@.len() && 0 <= i < rec.tasks@.len() && (
                #[trigger] rec.tasks@[i]).id == SubtaskRef::Fn(#[trigger] rec.extra_roots@[j])
                    ==> rec.tasks@[i].proto is Compound
            &&& !too_large(rec.tasks@, goals.len())
            &&& forall|i: int| 0 <= i < rec.tasks@.len() ==> bakeable(#[trigger] rec.tasks@[i])
            &&& forall|g: int|
                0 <= g < goals.len() ==> !recorded(
                    rec.tasks@,
                    SubtaskRef::Fn((#[trigger] goals[g]).task),
                )
            &&& forall|g: int, h: int|
                0 <= g < h < goals.len() ==> (#[trigger] goals[g]).task != (
                #[trigger] goals[h]).task
            &&& rec.tasks@[0].proto is Compound
        },
{
    assert(rec.tasks.len() <= usize::MAX);
    lemma_root_errors(rec.tasks@, rec.extra_roots@, 0);
    lemma_bake_errors(rec.tasks@, 0);
    lemma_goal_errors(rec.tasks@, goals, 0);
    if goal_error(rec.tasks@, goals, 0) is None {
        assert forall|g: int, h: int| 0 <= g < h < goals.len() implies (#[trigger] goals[g]).task
            != (#[trigger] goals[h]).task by {
            if goals[g].task == goals[h].task {
                assert(goal_known(goals, goals[h].task, h as nat));
            }
        }
    }
    if forall|g: int, h: int|
        0 <= g < h < goals.len() ==> (#[trigger] goals[g]).task != (#[trigger] goals[h]).task {
        assert forall|h: int| 0 <= h < goals.len() implies !goal_known(
            goals,
            (#[trigger] goals[h]).task,
            h as nat,
        ) by {
            if goal_known(goals, goals[h].task, h as nat) {
                let g = choose|g: int| 0 <= g < h && (#[trigger] goals[g]).task == goals[h].task;
                assert(goals[g].task != goals[h].task);
            }
        }
    }
}

/// A built domain runs what was recorded: its root is the first recorded task, each
/// task keeps its place, its name and its kind, and each member is the task that it
/// refers to.
pub proof fn built_domains_keep_what_was_recorded<M: PlanModel>(
    rec: Recorder<M>,
    goals: Seq<GoalEntry<M>>,
    d: HtnDomain<M>,
    t: int,
)
    requires
        domain_of(rec, goals, d),
        0 <= t < rec.tasks@.len(),
    ensures
        d.root == 0,
        d.tasks@[t].name_spec() == rec.tasks@[t].name,
        d.tasks@[t] is Compound == rec.tasks@[t].proto is Compound,
        rec.tasks@[t].proto matches TaskProto::Compound { methods, policy } ==> {
            let c = d.tasks@[t]->Compound_0;
            &&& c.methods@.len() == methods@.len()
            &&& forall|m: int, k: int|
                0 <= m < methods@.len() && 0 <= k < methods@[m].subtasks@.len() ==> {
                    let u = c.methods@[m].subtasks@[k] as int;
                    u < rec.tasks@.len() && rec.tasks@[u].id == (
                    #[trigger] methods@[m].subtasks@[k]).task
                }
            &&& forall|m: int|
                0 <= m < methods@.len() && !(#[trigger] methods@[m]).unordered
                    && methods@[m].edges@.len() == 0 ==> c.methods@[m].order is Total
                    && c.methods@[m].pause_positions@ == methods@[m].pause_positions@
        },
{
    assert(rec.tasks.len() <= usize::MAX);
    assert(baked_task(rec.tasks@, rec.tasks@[t], d.tasks@[t]));
    if let TaskProto::Compound { methods, policy } = rec.tasks@[t].proto {
        let c = d.tasks@[t]->Compound_0;
        assert forall|m: int, k: int|
            0 <= m < methods@.len() && 0 <= k < methods@[m].subtasks@.len() implies {
            let u = c.methods@[m].subtasks@[k] as int;
            u < rec.tasks@.len() && rec.tasks@[u].id == (#[trigger] methods@[m].subtasks@[k]).task
        } by {
            assert(baked_method(rec.tasks@, methods@[m], c.methods@[m]));
            lemma_entry_found(rec.tasks@, methods@[m].subtasks@[k].task, 0);
        }
        assert forall|m: int|
            0 <= m < methods@.len() && !(#[trigger] methods@[m]).unordered
                && methods@[m].edges@.len() == 0 implies c.methods@[m].order is Total
            && c.methods@[m].pause_positions@ == methods@[m].pause_positions@ by {
            assert(baked_method(rec.tasks@, methods@[m], c.methods@[m]));
        }
    }
}

} // verus!
