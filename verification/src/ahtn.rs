//! Adversarial planning: game-tree search over two players' decompositions,
//! with alpha-beta pruning.
//!
//! Both players plan from the same baked domain against the same state. On its
//! turn a player executes the primitive at the front of its queue and hands the
//! turn over (the depth falls by one), or replaces the compound task at the
//! front by the members of an applicable branch and keeps the turn; a player
//! whose queue is empty yields. When both queues are empty, or the depth is
//! used up, the state is scored from max's perspective: max maximizes, min
//! minimizes. A player that is stuck (a primitive whose preconditions fail, a
//! compound task without an applicable branch, or no decomposition budget)
//! gets the worst value. Partially-ordered branches run in their first order;
//! goals are no forward steps and are skipped.

use crate::domain::{CompoundTask, HtnDomain, Task};
use crate::error::{HtnError, HtnResult};
use crate::mcts::{
    lemma_order_in_range, lemma_run_order_known, push_members, with_members,
};
use crate::model::{ModelState, PlanModel};
use crate::ranking::{lemma_valid_methods, valid_methods};
use crate::state::{copy_indices, PlanState, StateView};
use crate::text::join3;
use vstd::prelude::*;
use vstd::string::{StrSliceExecFns, StringExecFns};

verus! {

/// Whose turn it is.
#[derive(Clone, Copy, PartialEq, Eq, Debug, Structural)]
pub enum Side {
    /// The player that maximizes.
    Max,
    /// The player that minimizes.
    Min,
}

impl Side {
    /// The opponent.
    pub open spec fn other_spec(self) -> Side {
        match self {
            Side::Max => Side::Min,
            Side::Min => Side::Max,
        }
    }

    /// The opponent.
    pub fn other(self) -> (side: Side)
        ensures
            side == self.other_spec(),
    {
        match self {
            Side::Max => Side::Min,
            Side::Min => Side::Max,
        }
    }

    /// The worst possible value for the player.
    pub open spec fn worst_spec(self) -> i64 {
        match self {
            Side::Max => i64::MIN,
            Side::Min => i64::MAX,
        }
    }

    /// The worst possible value for the player: what a stuck branch scores.
    pub fn worst(self) -> (value: i64)
        ensures
            value == self.worst_spec(),
    {
        match self {
            Side::Max => i64::MIN,
            Side::Min => i64::MAX,
        }
    }

    /// Whether the player prefers the value `a` to the value `b`.
    pub open spec fn prefers(self, a: i64, b: i64) -> bool {
        match self {
            Side::Max => a > b,
            Side::Min => a < b,
        }
    }

    /// The window that is left once the player is sure of the value `v`.
    pub open spec fn narrowed(self, alpha: i64, beta: i64, v: i64) -> (i64, i64) {
        match self {
            Side::Max => (if v > alpha {
                v
            } else {
                alpha
            }, beta),
            Side::Min => (alpha, if v < beta {
                v
            } else {
                beta
            }),
        }
    }
}

/// What is left to do for the two players; the next task of each comes last.
#[verifier::ext_equal]
pub struct QueuesView {
    /// What is left for max.
    pub max: Seq<usize>,
    /// What is left for min.
    pub min: Seq<usize>,
}

impl QueuesView {
    /// What is left for a player.
    pub open spec fn of(self, side: Side) -> Seq<usize> {
        match side {
            Side::Max => self.max,
            Side::Min => self.min,
        }
    }

    /// The queues with one player's replaced.
    pub open spec fn with(self, side: Side, queue: Seq<usize>) -> QueuesView {
        match side {
            Side::Max => QueuesView { max: queue, ..self },
            Side::Min => QueuesView { min: queue, ..self },
        }
    }

    /// The number of tasks left.
    pub open spec fn size(self) -> nat {
        self.max.len() + self.min.len()
    }
}

/// What a search of a node gives: its value, max's primitive tasks beneath it,
/// and the decomposition budget left.
#[verifier::ext_equal]
pub struct PlayView {
    /// The value.
    pub value: i64,
    /// Max's primitive tasks.
    pub plan: Seq<usize>,
    /// The budget left.
    pub left: nat,
}

/// The plan beneath a node at which a player executes a primitive: only max's
/// primitives belong to it.
pub open spec fn recorded(side: Side, task: usize, plan: Seq<usize>) -> Seq<usize> {
    match side {
        Side::Max => seq![task] + plan,
        Side::Min => plan,
    }
}

/// What the pruned search of a node gives.
pub open spec fn played<M: PlanModel>(
    d: HtnDomain<M>,
    eval: M::Score,
    side: Side,
    s: ModelState<M>,
    q: QueuesView,
    budget: nat,
    alpha: i64,
    beta: i64,
    depth: nat,
) -> PlayView
    decreases depth, budget, q.size(), (if q.of(side).len() == 0 { 1nat } else { 0nat }), 0nat,
{
    if depth == 0 || q.size() == 0 {
        PlayView { value: M::score_of(eval, s), plan: Seq::empty(), left: budget }
    } else if q.of(side).len() == 0 {
        played(d, eval, side.other_spec(), s, q, budget, alpha, beta, depth)
    } else {
        let front = q.of(side).last();
        let rest = q.with(side, q.of(side).drop_last());
        let stuck = PlayView { value: side.worst_spec(), plan: Seq::empty(), left: budget };
        match d.tasks@[front as int] {
            Task::Primitive(p) => if !p.ready(s) {
                stuck
            } else {
                let r = played(
                    d,
                    eval,
                    side.other_spec(),
                    p.after(s),
                    rest,
                    budget,
                    alpha,
                    beta,
                    (depth - 1) as nat,
                );
                PlayView { plan: recorded(side, front, r.plan), ..r }
            },
            Task::Compound(c) => if budget == 0 || valid_methods(c, s).len() == 0 {
                stuck
            } else {
                played_from(d, eval, side, s, q, stuck, 0, alpha, beta, depth)
            },
            Task::Goal(_) => played(d, eval, side, s, rest, budget, alpha, beta, depth),
        }
    }
}

/// What the pruned search of a compound task's branches from index `i` on gives,
/// where `best` is the best so far and holds the budget left.
pub open spec fn played_from<M: PlanModel>(
    d: HtnDomain<M>,
    eval: M::Score,
    side: Side,
    s: ModelState<M>,
    q: QueuesView,
    best: PlayView,
    i: nat,
    alpha: i64,
    beta: i64,
    depth: nat,
) -> PlayView
    decreases
        depth,
        best.left,
        0nat,
        0nat,
        d.tasks@[q.of(side).last() as int]->Compound_0.methods@.len() - i,
{
    let c = d.tasks@[q.of(side).last() as int]->Compound_0;
    if i >= c.methods@.len() {
        best
    } else if !c.methods@[i as int].valid(s) {
        played_from(d, eval, side, s, q, best, i + 1, alpha, beta, depth)
    } else if best.left == 0 {
        best
    } else {
        let child = q.with(
            side,
            with_members(q.of(side).drop_last(), c.methods@[i as int]),
        );
        let r = played(
            d,
            eval,
            side,
            s,
            child,
            (best.left - 1) as nat,
            alpha,
            beta,
            depth,
        );
        // A search never gives budget back.
        let left = if r.left < best.left {
            r.left
        } else {
            (best.left - 1) as nat
        };
        let next = if side.prefers(r.value, best.value) {
            PlayView { left, ..r }
        } else {
            PlayView { left, ..best }
        };
        let (alpha2, beta2) = side.narrowed(alpha, beta, next.value);
        if alpha2 >= beta2 {
            next
        } else {
            played_from(d, eval, side, s, q, next, i + 1, alpha2, beta2, depth)
        }
    }
}

/// A search never gives budget back.
pub proof fn lemma_played_left<M: PlanModel>(
    d: HtnDomain<M>,
    eval: M::Score,
    side: Side,
    s: ModelState<M>,
    q: QueuesView,
    budget: nat,
    alpha: i64,
    beta: i64,
    depth: nat,
)
    ensures
        played(d, eval, side, s, q, budget, alpha, beta, depth).left <= budget,
    decreases depth, budget, q.size(), (if q.of(side).len() == 0 { 1nat } else { 0nat }), 0nat,
{
    if depth == 0 || q.size() == 0 {
    } else if q.of(side).len() == 0 {
        lemma_played_left(d, eval, side.other_spec(), s, q, budget, alpha, beta, depth);
    } else {
        let front = q.of(side).last();
        let rest = q.with(side, q.of(side).drop_last());
        let stuck = PlayView { value: side.worst_spec(), plan: Seq::empty(), left: budget };
        match d.tasks@[front as int] {
            Task::Primitive(p) => {
                lemma_played_left(
                    d,
                    eval,
                    side.other_spec(),
                    p.after(s),
                    rest,
                    budget,
                    alpha,
                    beta,
                    (depth - 1) as nat,
                );
            },
            Task::Compound(c) => {
                lemma_played_from_left(d, eval, side, s, q, stuck, 0, alpha, beta, depth);
            },
            Task::Goal(_) => {
                lemma_played_left(d, eval, side, s, rest, budget, alpha, beta, depth);
            },
        }
    }
}

proof fn lemma_played_from_left<M: PlanModel>(
    d: HtnDomain<M>,
    eval: M::Score,
    side: Side,
    s: ModelState<M>,
    q: QueuesView,
    best: PlayView,
    i: nat,
    alpha: i64,
    beta: i64,
    depth: nat,
)
    ensures
        played_from(d, eval, side, s, q, best, i, alpha, beta, depth).left <= best.left,
    decreases d.tasks@[q.of(side).last() as int]->Compound_0.methods@.len() - i,
{
    let c = d.tasks@[q.of(side).last() as int]->Compound_0;
    if i >= c.methods@.len() {
    } else if !c.methods@[i as int].valid(s) {
        lemma_played_from_left(d, eval, side, s, q, best, i + 1, alpha, beta, depth);
    } else if best.left > 0 {
        let child = q.with(side, with_members(q.of(side).drop_last(), c.methods@[i as int]));
        let r = played(d, eval, side, s, child, (best.left - 1) as nat, alpha, beta, depth);
        let left = if r.left < best.left {
            r.left
        } else {
            (best.left - 1) as nat
        };
        let next = if side.prefers(r.value, best.value) {
            PlayView { left, ..r }
        } else {
            PlayView { left, ..best }
        };
        let (alpha2, beta2) = side.narrowed(alpha, beta, next.value);
        lemma_played_from_left(d, eval, side, s, q, next, i + 1, alpha2, beta2, depth);
    }
}

/// The minimax value of a node, and max's primitive tasks under best play by
/// both, where a player that has decomposed `cut` times since the root is stuck.
pub open spec fn minimax<M: PlanModel>(
    d: HtnDomain<M>,
    eval: M::Score,
    side: Side,
    s: ModelState<M>,
    q: QueuesView,
    cut: nat,
    depth: nat,
) -> (i64, Seq<usize>)
    decreases depth, cut, q.size(), (if q.of(side).len() == 0 { 1nat } else { 0nat }), 0nat,
{
    if depth == 0 || q.size() == 0 {
        (M::score_of(eval, s), Seq::empty())
    } else if q.of(side).len() == 0 {
        minimax(d, eval, side.other_spec(), s, q, cut, depth)
    } else {
        let front = q.of(side).last();
        let rest = q.with(side, q.of(side).drop_last());
        match d.tasks@[front as int] {
            Task::Primitive(p) => if !p.ready(s) {
                (side.worst_spec(), Seq::empty())
            } else {
                let r = minimax(
                    d,
                    eval,
                    side.other_spec(),
                    p.after(s),
                    rest,
                    cut,
                    (depth - 1) as nat,
                );
                (r.0, recorded(side, front, r.1))
            },
            Task::Compound(c) => if cut == 0 {
                (side.worst_spec(), Seq::empty())
            } else {
                minimax_below(d, eval, side, s, q, cut, c.methods@.len(), depth)
            },
            Task::Goal(_) => minimax(d, eval, side, s, rest, cut, depth),
        }
    }
}

/// The best for the player among the first `n` branches of its compound task;
/// the earlier branch on a tie.
pub open spec fn minimax_below<M: PlanModel>(
    d: HtnDomain<M>,
    eval: M::Score,
    side: Side,
    s: ModelState<M>,
    q: QueuesView,
    cut: nat,
    n: nat,
    depth: nat,
) -> (i64, Seq<usize>)
    decreases depth, cut, 0nat, 0nat, n,
{
    let c = d.tasks@[q.of(side).last() as int]->Compound_0;
    if n == 0 || cut == 0 {
        (side.worst_spec(), Seq::empty())
    } else {
        let best = minimax_below(d, eval, side, s, q, cut, (n - 1) as nat, depth);
        if !c.methods@[n - 1].valid(s) {
            best
        } else {
            let child = q.with(
                side,
                with_members(q.of(side).drop_last(), c.methods@[n - 1]),
            );
            let r = minimax(d, eval, side, s, child, (cut - 1) as nat, depth);
            if side.prefers(r.0, best.0) {
                r
            } else {
                best
            }
        }
    }
}

/// Whether the queues name tasks of the domain.
pub open spec fn known_queues<M: PlanModel>(d: HtnDomain<M>, q: QueuesView) -> bool {
    &&& forall|i: int| 0 <= i < q.max.len() ==> (#[trigger] q.max[i]) < d.tasks@.len()
    &&& forall|i: int| 0 <= i < q.min.len() ==> (#[trigger] q.min[i]) < d.tasks@.len()
}

proof fn lemma_child_known<M: PlanModel>(
    d: HtnDomain<M>,
    q: QueuesView,
    side: Side,
    c: CompoundTask<M>,
    i: nat,
)
    requires
        d.wf(),
        known_queues(d, q),
        q.of(side).len() > 0,
        d.tasks@[q.of(side).last() as int] == Task::Compound(c),
        i < c.methods@.len(),
    ensures
        c.methods@[i as int].wf(d.tasks@.len(), d.slots()),
        known_queues(
            d,
            q.with(side, with_members(q.of(side).drop_last(), c.methods@[i as int])),
        ),
{
    let front = q.of(side).last();
    assert(q.of(side)[q.of(side).len() - 1] < d.tasks@.len());
    assert(d.tasks@[front as int].wf(d.tasks@.len(), d.slots()));
    let m = c.methods@[i as int];
    assert(m.wf(d.tasks@.len(), d.slots()));
    lemma_run_order_known(d, m);
    let rest = q.of(side).drop_last();
    let stack = with_members(rest, m);
    assert forall|k: int| 0 <= k < stack.len() implies (#[trigger] stack[k]) < d.tasks@.len() by {
        if k < rest.len() {
            assert(stack[k] == q.of(side)[k]);
        } else {
            assert(stack[k] == m.run_order()[m.run_order().len() - 1 - (k - rest.len())]);
        }
    }
}

/// Whether a value found in a window is right: exact inside the window, and a
/// bound on the far side of it otherwise.
spec fn right(alpha: i64, beta: i64, r: PlayView, m: (i64, Seq<usize>)) -> bool {
    &&& alpha < r.value < beta ==> m == (r.value, r.plan)
    &&& r.value <= alpha ==> m.0 <= r.value
    &&& r.value >= beta ==> m.0 >= r.value
}

/// Whether the best of the branches so far is right for the window that the
/// node was entered with.
spec fn right_so_far(
    side: Side,
    alpha: i64,
    beta: i64,
    best: PlayView,
    m: (i64, Seq<usize>),
) -> bool {
    match side {
        Side::Max => best.value < beta && right(alpha, beta, best, m),
        Side::Min => best.value > alpha && right(alpha, beta, best, m),
    }
}

proof fn lemma_right<M: PlanModel>(
    d: HtnDomain<M>,
    eval: M::Score,
    side: Side,
    s: ModelState<M>,
    q: QueuesView,
    budget: nat,
    alpha: i64,
    beta: i64,
    depth: nat,
    cut: nat,
)
    requires
        d.wf(),
        known_queues(d, q),
        alpha < beta,
        budget <= cut,
        played(d, eval, side, s, q, budget, alpha, beta, depth).left > 0,
    ensures
        right(
            alpha,
            beta,
            played(d, eval, side, s, q, budget, alpha, beta, depth),
            minimax(d, eval, side, s, q, cut, depth),
        ),
    decreases depth, budget, q.size(), (if q.of(side).len() == 0 { 1nat } else { 0nat }), 0nat,
{
    lemma_played_left(d, eval, side, s, q, budget, alpha, beta, depth);
    if depth == 0 || q.size() == 0 {
    } else if q.of(side).len() == 0 {
        lemma_right(d, eval, side.other_spec(), s, q, budget, alpha, beta, depth, cut);
    } else {
        let front = q.of(side).last();
        let rest = q.with(side, q.of(side).drop_last());
        let stuck = PlayView { value: side.worst_spec(), plan: Seq::empty(), left: budget };
        assert(q.of(side)[q.of(side).len() - 1] < d.tasks@.len());
        assert(d.tasks@[front as int].wf(d.tasks@.len(), d.slots()));
        assert(known_queues(d, rest));
        match d.tasks@[front as int] {
            Task::Primitive(p) => {
                if p.ready(s) {
                    lemma_right(
                        d,
                        eval,
                        side.other_spec(),
                        p.after(s),
                        rest,
                        budget,
                        alpha,
                        beta,
                        (depth - 1) as nat,
                        cut,
                    );
                }
            },
            Task::Compound(c) => {
                if valid_methods(c, s).len() == 0 {
                    lemma_no_branch(d, eval, side, s, q, cut, c.methods@.len(), depth);
                } else {
                    assert(right_so_far(
                        side,
                        alpha,
                        beta,
                        stuck,
                        minimax_below(d, eval, side, s, q, cut, 0, depth),
                    ));
                    lemma_right_from(d, eval, side, s, q, stuck, 0, alpha, beta, alpha, beta, depth, cut);
                }
            },
            Task::Goal(_) => {
                lemma_right(d, eval, side, s, rest, budget, alpha, beta, depth, cut);
            },
        }
    }
}

proof fn lemma_no_branch<M: PlanModel>(
    d: HtnDomain<M>,
    eval: M::Score,
    side: Side,
    s: ModelState<M>,
    q: QueuesView,
    cut: nat,
    n: nat,
    depth: nat,
)
    requires
        valid_methods(d.tasks@[q.of(side).last() as int]->Compound_0, s).len() == 0,
        n <= d.tasks@[q.of(side).last() as int]->Compound_0.methods@.len() <= u32::MAX,
    ensures
        minimax_below(d, eval, side, s, q, cut, n, depth) == (
            side.worst_spec(),
            Seq::<usize>::empty(),
        ),
    decreases n,
{
    let c = d.tasks@[q.of(side).last() as int]->Compound_0;
    if n > 0 {
        lemma_no_branch(d, eval, side, s, q, cut, (n - 1) as nat, depth);
        lemma_valid_methods(c, s);
        if c.methods@[n - 1].valid(s) {
            assert(valid_methods(c, s).contains((n - 1) as u32));
        }
    }
}

/// The best over more branches is no worse for the player.
proof fn lemma_below_improves<M: PlanModel>(
    d: HtnDomain<M>,
    eval: M::Score,
    side: Side,
    s: ModelState<M>,
    q: QueuesView,
    cut: nat,
    n: nat,
    more: nat,
    depth: nat,
)
    requires
        n <= more,
    ensures
        !side.prefers(
            minimax_below(d, eval, side, s, q, cut, n, depth).0,
            minimax_below(d, eval, side, s, q, cut, more, depth).0,
        ),
    decreases more - n,
{
    if n < more {
        lemma_below_improves(d, eval, side, s, q, cut, n, (more - 1) as nat, depth);
    }
}

proof fn lemma_right_from<M: PlanModel>(
    d: HtnDomain<M>,
    eval: M::Score,
    side: Side,
    s: ModelState<M>,
    q: QueuesView,
    best: PlayView,
    i: nat,
    alpha: i64,
    beta: i64,
    alpha0: i64,
    beta0: i64,
    depth: nat,
    cut: nat,
)
    requires
        d.wf(),
        known_queues(d, q),
        q.of(side).len() > 0,
        d.tasks@[q.of(side).last() as int] is Compound,
        alpha0 < beta0,
        alpha < beta,
        0 < best.left <= cut,
        i <= d.tasks@[q.of(side).last() as int]->Compound_0.methods@.len(),
        (alpha, beta) == side.narrowed(alpha0, beta0, best.value),
        right_so_far(
            side,
            alpha0,
            beta0,
            best,
            minimax_below(d, eval, side, s, q, cut, i, depth),
        ),
        played_from(d, eval, side, s, q, best, i, alpha, beta, depth).left > 0,
    ensures
        right(
            alpha0,
            beta0,
            played_from(d, eval, side, s, q, best, i, alpha, beta, depth),
            minimax_below(
                d,
                eval,
                side,
                s,
                q,
                cut,
                d.tasks@[q.of(side).last() as int]->Compound_0.methods@.len(),
                depth,
            ),
        ),
    decreases
        depth,
        best.left,
        0nat,
        0nat,
        d.tasks@[q.of(side).last() as int]->Compound_0.methods@.len() - i,
{
    let c = d.tasks@[q.of(side).last() as int]->Compound_0;
    let total = c.methods@.len();
    let m0 = minimax_below(d, eval, side, s, q, cut, i, depth);
    let m1 = minimax_below(d, eval, side, s, q, cut, i + 1, depth);
    if i >= total {
    } else if !c.methods@[i as int].valid(s) {
        assert(m1 == m0);
        lemma_right_from(d, eval, side, s, q, best, i + 1, alpha, beta, alpha0, beta0, depth, cut);
    } else {
        let child = q.with(side, with_members(q.of(side).drop_last(), c.methods@[i as int]));
        let budget = (best.left - 1) as nat;
        let r = played(d, eval, side, s, child, budget, alpha, beta, depth);
        lemma_played_left(d, eval, side, s, child, budget, alpha, beta, depth);
        let next = if side.prefers(r.value, best.value) {
            r
        } else {
            PlayView { left: r.left, ..best }
        };
        assert(r.left < best.left);
        let (alpha2, beta2) = side.narrowed(alpha, beta, next.value);
        lemma_played_from_left(d, eval, side, s, q, next, i + 1, alpha2, beta2, depth);
        lemma_child_known(d, q, side, c, i);
        lemma_right(d, eval, side, s, child, budget, alpha, beta, depth, (cut - 1) as nat);
        let m = minimax(d, eval, side, s, child, (cut - 1) as nat, depth);
        assert(m1 == if side.prefers(m.0, m0.0) {
            m
        } else {
            m0
        });
        lemma_step_right(side, alpha0, beta0, best, m0, r, m);
        if alpha2 >= beta2 {
            lemma_below_improves(d, eval, side, s, q, cut, i + 1, total, depth);
        } else {
            lemma_right_from(
                d,
                eval,
                side,
                s,
                q,
                next,
                i + 1,
                alpha2,
                beta2,
                alpha0,
                beta0,
                depth,
                cut,
            );
        }
    }
}

proof fn lemma_step_right(
    side: Side,
    alpha0: i64,
    beta0: i64,
    best: PlayView,
    m0: (i64, Seq<usize>),
    r: PlayView,
    m: (i64, Seq<usize>),
)
    requires
        alpha0 < beta0,
        right_so_far(side, alpha0, beta0, best, m0),
        ({
            let (alpha, beta) = side.narrowed(alpha0, beta0, best.value);
            alpha < beta && right(alpha, beta, r, m)
        }),
    ensures
        ({
            let (alpha, beta) = side.narrowed(alpha0, beta0, best.value);
            let next = if side.prefers(r.value, best.value) {
                r
            } else {
                PlayView { left: r.left, ..best }
            };
            let m1 = if side.prefers(m.0, m0.0) {
                m
            } else {
                m0
            };
            let (alpha2, beta2) = side.narrowed(alpha, beta, next.value);
            &&& alpha2 >= beta2 ==> match side {
                Side::Max => next.value >= beta0 && m1.0 >= next.value,
                Side::Min => next.value <= alpha0 && m1.0 <= next.value,
            }
            &&& alpha2 < beta2 ==> {
                &&& right_so_far(side, alpha0, beta0, next, m1)
                &&& (alpha2, beta2) == side.narrowed(alpha0, beta0, next.value)
            }
        }),
{
}

/// Where the search ends with budget left, it finds the minimax value of the
/// game tree, whatever depth of decompositions beyond the budget the tree is cut
/// at; and max's plan under best play, where max is neither lost nor wins with
/// the best value there is. Pruning changes neither.
pub proof fn pruning_keeps_the_minimax_value<M: PlanModel>(
    d: HtnDomain<M>,
    eval: M::Score,
    s: ModelState<M>,
    q: QueuesView,
    budget: nat,
    depth: nat,
    cut: nat,
)
    requires
        d.wf(),
        known_queues(d, q),
        budget <= cut,
        played(d, eval, Side::Max, s, q, budget, i64::MIN, i64::MAX, depth).left > 0,
    ensures
        ({
            let r = played(d, eval, Side::Max, s, q, budget, i64::MIN, i64::MAX, depth);
            let m = minimax(d, eval, Side::Max, s, q, cut, depth);
            &&& m.0 == r.value
            &&& i64::MIN < r.value < i64::MAX ==> m.1 == r.plan
        }),
{
    lemma_right(d, eval, Side::Max, s, q, budget, i64::MIN, i64::MAX, depth, cut);
}

/// What is left to do for the two players; the next task of each comes last.
pub struct Queues {
    /// What is left for max.
    pub max: Vec<usize>,
    /// What is left for min.
    pub min: Vec<usize>,
}

impl Queues {
    /// What the queues stand for.
    pub open spec fn view(&self) -> QueuesView {
        QueuesView { max: self.max@, min: self.min@ }
    }

    /// The queues with one player's replaced.
    fn with(&self, side: Side, queue: Vec<usize>) -> (q: Queues)
        ensures
            q.view() == self.view().with(side, queue@),
    {
        match side {
            Side::Max => Queues { max: queue, min: copy_indices(&self.min) },
            Side::Min => Queues { max: copy_indices(&self.max), min: queue },
        }
    }

    /// What is left for a player.
    fn of(&self, side: Side) -> (queue: &Vec<usize>)
        ensures
            queue@ == self.view().of(side),
    {
        match side {
            Side::Max => &self.max,
            Side::Min => &self.min,
        }
    }
}

/// What an adversarial search finds.
pub struct AhtnOutcome {
    /// Max's primitive task indices, in execution order. Min's actions happen
    /// between them and are not part of it.
    pub plan: Vec<u32>,
    /// The root's value: max's payoff under best play by both.
    pub value: i64,
}

/// An adversarial planner over a baked domain.
pub struct Ahtn<'a, M: PlanModel> {
    /// The domain both players plan in.
    pub domain: &'a HtnDomain<M>,
    /// Branch commitments per search, over both players.
    pub max_decompositions: usize,
}

/// The root that a player decomposes from: a task recorded from the function
/// with identity `key`, which must be compound.
pub open spec fn root_ok<M: PlanModel>(d: HtnDomain<M>, key: u64) -> bool {
    d.index_of_key(key) matches Some(i) && d.tasks@[i as int] is Compound
}

/// The error for a root that is none.
pub open spec fn root_error<M: PlanModel>(
    d: HtnDomain<M>,
    key: u64,
    name: Seq<char>,
    error: HtnError,
) -> bool {
    match d.index_of_key(key) {
        None => error matches HtnError::UnregisteredTask { name: n } && n@ == name,
        Some(_) => error.is_builder(
            "adversarial root `"@ + name + "` must be a compound task"@,
        ),
    }
}

/// The queues that a search starts from.
pub open spec fn start_queues<M: PlanModel>(
    d: HtnDomain<M>,
    max_root: u64,
    min_root: u64,
) -> QueuesView {
    QueuesView {
        max: seq![d.index_of_key(max_root)->Some_0],
        min: seq![d.index_of_key(min_root)->Some_0],
    }
}

impl<'a, M: PlanModel> Ahtn<'a, M> {
    /// A planner over `domain` with the default decomposition budget of 1000.
    pub fn new(domain: &'a HtnDomain<M>) -> (a: Ahtn<'a, M>)
        ensures
            a.domain == domain,
            a.max_decompositions == 1000,
    {
        Ahtn { domain, max_decompositions: 1000 }
    }

    /// Sets the decomposition budget of a search.
    pub fn with_decomposition_budget(self, max_decompositions: usize) -> (a: Ahtn<'a, M>)
        ensures
            a == (Ahtn { max_decompositions, ..self }),
    {
        Ahtn { domain: self.domain, max_decompositions }
    }

    /// Resolves a player's root.
    fn resolve(&self, key: u64, name: &str) -> (root: HtnResult<usize>)
        ensures
            match root {
                Ok(i) => root_ok(*self.domain, key) && self.domain.index_of_key(key) == Some(i) && i
                    < self.domain.tasks@.len(),
                Err(e) => !root_ok(*self.domain, key) && root_error(
                    *self.domain,
                    key,
                    name@,
                    e,
                ),
            },
    {
        match self.domain.task_index_by_type(key) {
            None => Err(HtnError::UnregisteredTask { name: name.to_owned() }),
            Some(i) => {
                if self.domain.tasks[i].is_compound() {
                    Ok(i)
                } else {
                    Err(
                        HtnError::builder(
                            join3("adversarial root `", name, "` must be a compound task"),
                        ),
                    )
                }
            },
        }
    }

    /// Runs the adversarial search: the roots are the functions with identities
    /// `max_root` and `min_root` (the names stand in errors), `eval` scores a
    /// state from max's perspective, and `depth` bounds the primitive actions
    /// that either player issues. `None` where max has no viable plan.
    pub fn search(
        &self,
        max_root: u64,
        max_name: &str,
        min_root: u64,
        min_name: &str,
        state: &PlanState<M::Component>,
        eval: &M::Score,
        depth: usize,
    ) -> (outcome: HtnResult<Option<AhtnOutcome>>)
        requires
            self.domain.wf(),
            state@.len() == self.domain.slots(),
        ensures
            match outcome {
                Err(e) => {
                    ||| !root_ok(*self.domain, max_root) && root_error(
                        *self.domain,
                        max_root,
                        max_name@,
                        e,
                    )
                    ||| root_ok(*self.domain, max_root) && !root_ok(*self.domain, min_root)
                        && root_error(*self.domain, min_root, min_name@, e)
                },
                Ok(found) => {
                    let r = played(
                        *self.domain,
                        *eval,
                        Side::Max,
                        state@,
                        start_queues(*self.domain, max_root, min_root),
                        self.max_decompositions as nat,
                        i64::MIN,
                        i64::MAX,
                        depth as nat,
                    );
                    &&& root_ok(*self.domain, max_root)
                    &&& root_ok(*self.domain, min_root)
                    &&& match found {
                        None => r.value == i64::MIN,
                        Some(o) => {
                            &&& r.value != i64::MIN
                            &&& o.value == r.value
                            &&& o.plan@ == Seq::new(r.plan.len(), |i: int| r.plan[i] as u32)
                        },
                    }
                },
            },
    {
        let max_index: usize = match self.resolve(max_root, max_name) {
            Ok(i) => i,
            Err(e) => {
                return Err(e);
            },
        };
        let min_index: usize = match self.resolve(min_root, min_name) {
            Ok(i) => i,
            Err(e) => {
                return Err(e);
            },
        };
        let mut max: Vec<usize> = Vec::new();
        max.push(max_index);
        let mut min: Vec<usize> = Vec::new();
        min.push(min_index);
        let queues = Queues { max, min };
        assert(queues.view() =~= start_queues(*self.domain, max_root, min_root));
        let mut budget: usize = self.max_decompositions;
        let (value, mut reversed) = self.node(
            Side::Max,
            state,
            &queues,
            &mut budget,
            i64::MIN,
            i64::MAX,
            depth,
            eval,
        );
        if value == i64::MIN {
            return Ok(None);
        }
        let mut plan: Vec<u32> = Vec::new();
        let ghost whole = reversed@.reverse();
        while reversed.len() > 0
            invariant
                plan@.len() + reversed@.len() == whole.len(),
                forall|i: int| 0 <= i < plan@.len() ==> (#[trigger] plan@[i]) == whole[i] as u32,
                forall|i: int|
                    0 <= i < reversed@.len() ==> (#[trigger] reversed@[i]) == whole[whole.len() - 1
                        - i],
            decreases reversed@.len(),
        {
            let step: usize = reversed.pop().unwrap();
            plan.push(step as u32);
        }
        assert(plan@ =~= Seq::new(whole.len(), |i: int| whole[i] as u32));
        Ok(Some(AhtnOutcome { plan, value }))
    }

    /// One turn: the node's value, and max's primitive tasks beneath it, the
    /// first one last.
    fn node(
        &self,
        side: Side,
        state: &PlanState<M::Component>,
        queues: &Queues,
        budget: &mut usize,
        alpha: i64,
        beta: i64,
        depth: usize,
        eval: &M::Score,
    ) -> (r: (i64, Vec<usize>))
        requires
            self.domain.wf(),
            state@.len() == self.domain.slots(),
            known_queues(*self.domain, queues.view()),
        ensures
            played(
                *self.domain,
                *eval,
                side,
                state@,
                queues.view(),
                *old(budget) as nat,
                alpha,
                beta,
                depth as nat,
            ) == (PlayView { value: r.0, plan: r.1@.reverse(), left: *final(budget) as nat }),
            *final(budget) <= *old(budget),
        decreases
            depth,
            *old(budget),
            queues.view().size(),
            (if queues.view().of(side).len() == 0 {
                1nat
            } else {
                0nat
            }),
    {
        let ghost q = queues.view();
        if depth == 0 || (queues.max.len() == 0 && queues.min.len() == 0) {
            let none: Vec<usize> = Vec::new();
            assert(none@.reverse() =~= Seq::<usize>::empty());
            return (M::score(eval, state), none);
        }
        let queue = queues.of(side);
        if queue.len() == 0 {
            return self.node(side.other(), state, queues, budget, alpha, beta, depth, eval);
        }
        let front: usize = queue[queue.len() - 1];
        let mut rest: Vec<usize> = copy_indices(queue);
        rest.pop();
        assert(rest@ =~= q.of(side).drop_last());
        assert(q.of(side)[q.of(side).len() - 1] < self.domain.tasks@.len());
        assert(self.domain.tasks@[front as int].wf(
            self.domain.tasks@.len(),
            self.domain.slots(),
        ));
        let none: Vec<usize> = Vec::new();
        assert(none@.reverse() =~= Seq::<usize>::empty());
        match &self.domain.tasks[front] {
            Task::Primitive(p) => {
                if !p.preconditions_met(state) {
                    return (side.worst(), none);
                }
                let mut next = state.duplicate();
                p.apply_effects(&mut next);
                let after = queues.with(side, rest);
                let (value, mut plan) = self.node(
                    side.other(),
                    &next,
                    &after,
                    budget,
                    alpha,
                    beta,
                    depth - 1,
                    eval,
                );
                let ghost sub = plan@.reverse();
                match side {
                    Side::Max => {
                        plan.push(front);
                        assert(plan@.reverse() =~= seq![front] + sub);
                    },
                    Side::Min => {},
                }
                (value, plan)
            },
            Task::Compound(c) => {
                if *budget == 0 {
                    return (side.worst(), none);
                }
                assert(c.checks_fit(state@.len())) by {
                    assert forall|i: int| 0 <= i < c.methods@.len() implies crate::model::all_fit(
                        (#[trigger] c.methods@[i]).preconditions@,
                        state@.len(),
                    ) by {
                        assert(c.methods@[i].wf(self.domain.tasks@.len(), self.domain.slots()));
                    }
                }
                if c.find_method(state, 0).is_none() {
                    proof {
                        lemma_none_valid(*c, state@);
                    }
                    return (side.worst(), none);
                }
                proof {
                    lemma_some_valid(*c, state@);
                }
                let mut best: (i64, Vec<usize>) = (side.worst(), none);
                let mut low: i64 = alpha;
                let mut high: i64 = beta;
                for i in 0..c.methods.len()
                    invariant
                        self.domain.wf(),
                        state@.len() == self.domain.slots(),
                        q == queues.view(),
                        known_queues(*self.domain, q),
                        q.of(side).len() > 0,
                        self.domain.tasks@[q.of(side).last() as int] == Task::<M>::Compound(*c),
                        c.checks_fit(state@.len()),
                        rest@ == q.of(side).drop_last(),
                        *budget <= *old(budget),
                        depth > 0,
                        played(
                            *self.domain,
                            *eval,
                            side,
                            state@,
                            q,
                            *old(budget) as nat,
                            alpha,
                            beta,
                            depth as nat,
                        ) == played_from(
                            *self.domain,
                            *eval,
                            side,
                            state@,
                            q,
                            (PlayView {
                                value: best.0,
                                plan: best.1@.reverse(),
                                left: *budget as nat,
                            }),
                            i as nat,
                            low,
                            high,
                            depth as nat,
                        ),
                {
                    let m = &c.methods[i];
                    if crate::model::evaluate_all(&m.preconditions, state) {
                        if *budget == 0 {
                            return best;
                        }
                        *budget = *budget - 1;
                        proof {
                            lemma_child_known(*self.domain, q, side, *c, i as nat);
                            lemma_order_in_range(*m);
                        }
                        let mut queue: Vec<usize> = copy_indices(&rest);
                        push_members(&mut queue, m);
                        let child = queues.with(side, queue);
                        let (value, plan) = self.node(
                            side,
                            state,
                            &child,
                            budget,
                            low,
                            high,
                            depth,
                            eval,
                        );
                        let better: bool = match side {
                            Side::Max => value > best.0,
                            Side::Min => value < best.0,
                        };
                        if better {
                            best = (value, plan);
                        }
                        match side {
                            Side::Max => {
                                if best.0 > low {
                                    low = best.0;
                                }
                            },
                            Side::Min => {
                                if best.0 < high {
                                    high = best.0;
                                }
                            },
                        }
                        if low >= high {
                            return best;
                        }
                    }
                }
                best
            },
            Task::Goal(_) => {
                let after = queues.with(side, rest);
                self.node(side, state, &after, budget, alpha, beta, depth, eval)
            },
        }
    }
}

proof fn lemma_none_valid<M: PlanModel>(c: CompoundTask<M>, s: ModelState<M>)
    requires
        c.methods@.len() <= u32::MAX,
        c.first_valid(s, 0) is None,
    ensures
        valid_methods(c, s).len() == 0,
{
    crate::domain::first_valid_is_the_least(c, s, 0);
    lemma_valid_methods(c, s);
    if valid_methods(c, s).len() > 0 {
        let k = valid_methods(c, s)[0];
        assert(valid_methods(c, s).contains(k));
        assert(c.methods@[k as int].valid(s));
    }
}

proof fn lemma_some_valid<M: PlanModel>(c: CompoundTask<M>, s: ModelState<M>)
    requires
        c.methods@.len() <= u32::MAX,
        c.first_valid(s, 0) is Some,
    ensures
        valid_methods(c, s).len() > 0,
{
    crate::domain::first_valid_is_the_least(c, s, 0);
    lemma_valid_methods(c, s);
    let k = c.first_valid(s, 0)->Some_0;
    assert(valid_methods(c, s).contains(k as u32));
}

/// A position of the game: whose turn it is, the state, what is left to do for
/// each player (the next task last), and how many primitives may still be
/// executed.
pub struct Board<C> {
    /// Whose turn it is.
    pub side: Side,
    /// The state.
    pub state: StateView<C>,
    /// What is left for max.
    pub max: Seq<usize>,
    /// What is left for min.
    pub min: Seq<usize>,
    /// How many primitives may still be executed.
    pub depth: nat,
}

/// One move of the player whose turn it is.
pub enum Ply {
    /// Has nothing to do and yields.
    Yield,
    /// Executes the primitive at the front, and hands the turn over.
    Execute,
    /// Replaces the task at the front by the members of this branch.
    Choose(nat),
    /// Skips the goal at the front.
    Skip,
}

impl<C> Board<C> {
    /// What is left for the player whose turn it is.
    pub open spec fn mine(self) -> Seq<usize> {
        if self.side is Max {
            self.max
        } else {
            self.min
        }
    }

    /// The position with another queue for the player whose turn it is.
    pub open spec fn queued(self, queue: Seq<usize>) -> Board<C> {
        if self.side is Max {
            Board { max: queue, ..self }
        } else {
            Board { min: queue, ..self }
        }
    }

    /// The position with the turn handed over.
    pub open spec fn handed_over(self) -> Board<C> {
        Board {
            side: if self.side is Max {
                Side::Min
            } else {
                Side::Max
            },
            ..self
        }
    }

    /// Whether the game is over: no primitive may be executed any more, or
    /// neither player has anything left to do.
    pub open spec fn over(self) -> bool {
        self.depth == 0 || (self.max.len() == 0 && self.min.len() == 0)
    }
}

/// What one move does, where it applies.
pub open spec fn ply<M: PlanModel>(
    d: HtnDomain<M>,
    b: Board<M::Component>,
    p: Ply,
) -> Option<Board<M::Component>> {
    if b.over() {
        None
    } else if b.mine().len() == 0 {
        if p is Yield {
            Some(b.handed_over())
        } else {
            None
        }
    } else {
        let rest = b.queued(b.mine().drop_last());
        match (d.tasks@[b.mine().last() as int], p) {
            (Task::Primitive(t), Ply::Execute) => if t.ready(b.state) {
                Some(
                    Board {
                        state: t.after(b.state),
                        depth: (b.depth - 1) as nat,
                        ..rest.handed_over()
                    },
                )
            } else {
                None
            },
            (Task::Compound(c), Ply::Choose(i)) => if i < c.methods@.len()
                && c.methods@[i as int].valid(b.state) {
                Some(b.queued(b.mine().drop_last() + c.methods@[i as int].run_order().reverse()))
            } else {
                None
            },
            (Task::Goal(_), Ply::Skip) => Some(rest),
            _ => None,
        }
    }
}

/// Where a line of play leads, where every move applies.
pub open spec fn line<M: PlanModel>(
    d: HtnDomain<M>,
    b: Board<M::Component>,
    plies: Seq<Ply>,
) -> Option<Board<M::Component>>
    decreases plies.len(),
{
    if plies.len() == 0 {
        Some(b)
    } else {
        match ply(d, b, plies[0]) {
            Some(next) => line(d, next, plies.skip(1)),
            None => None,
        }
    }
}

/// The primitives that max executes on a line of play, in order.
pub open spec fn executed_by_max<M: PlanModel>(
    d: HtnDomain<M>,
    b: Board<M::Component>,
    plies: Seq<Ply>,
) -> Seq<usize>
    decreases plies.len(),
{
    if plies.len() == 0 {
        Seq::empty()
    } else {
        match ply(d, b, plies[0]) {
            Some(next) => {
                let later = executed_by_max(d, next, plies.skip(1));
                if plies[0] is Execute && b.side is Max {
                    seq![b.max.last()] + later
                } else {
                    later
                }
            },
            None => Seq::empty(),
        }
    }
}

/// Whether a line of play explains a value and a plan: the plan is what max
/// executes on it, and it ends where the state scores the value, or where the
/// player whose turn it is has a primitive at the front that is not ready, or a
/// task of which no branch gets it more than the worst value, and the value is
/// that player's worst.
pub open spec fn explains<M: PlanModel>(
    d: HtnDomain<M>,
    eval: M::Score,
    b: Board<M::Component>,
    plies: Seq<Ply>,
    value: i64,
    plan: Seq<usize>,
) -> bool {
    &&& line(d, b, plies) is Some
    &&& plan == executed_by_max(d, b, plies)
    &&& {
        let end = line(d, b, plies)->Some_0;
        if end.over() {
            value == M::score_of(eval, end.state)
        } else {
            &&& end.mine().len() > 0
            &&& match d.tasks@[end.mine().last() as int] {
                Task::Primitive(t) => !t.ready(end.state),
                Task::Compound(_) => true,
                Task::Goal(_) => false,
            }
            &&& value == if end.side is Max {
                i64::MIN
            } else {
                i64::MAX
            }
        }
    }
}

proof fn lemma_explains_on<M: PlanModel>(
    d: HtnDomain<M>,
    eval: M::Score,
    b: Board<M::Component>,
    p: Ply,
    plies: Seq<Ply>,
    value: i64,
    plan: Seq<usize>,
)
    requires
        ply(d, b, p) is Some,
        explains(d, eval, ply(d, b, p)->Some_0, plies, value, plan),
    ensures
        explains(
            d,
            eval,
            b,
            seq![p] + plies,
            value,
            if p is Execute && b.side is Max {
                seq![b.max.last()] + plan
            } else {
                plan
            },
        ),
{
    let all = seq![p] + plies;
    assert(all[0] == p);
    assert(all.skip(1) =~= plies);
}

/// The position that a search of a node stands for.
pub open spec fn board<C>(side: Side, s: StateView<C>, q: QueuesView, depth: nat) -> Board<C> {
    Board { side, state: s, max: q.max, min: q.min, depth }
}

/// The plan that a search gives can be replayed: it is the sequence of every
/// primitive that max executes on a line of play from the position, with min's
/// moves in between, and the line ends in a state that scores the value that the
/// search gives, or where the player to move gets no more than the worst value.
pub proof fn plans_replay_a_line_of_play<M: PlanModel>(
    d: HtnDomain<M>,
    eval: M::Score,
    side: Side,
    s: ModelState<M>,
    q: QueuesView,
    budget: nat,
    alpha: i64,
    beta: i64,
    depth: nat,
) -> (plies: Seq<Ply>)
    ensures
        ({
            let r = played(d, eval, side, s, q, budget, alpha, beta, depth);
            explains(d, eval, board(side, s, q, depth), plies, r.value, r.plan)
        }),
    decreases depth, budget, q.size(), (if q.of(side).len() == 0 { 1nat } else { 0nat }), 0nat,
{
    let b = board(side, s, q, depth);
    let none = Seq::<Ply>::empty();
    let r = played(d, eval, side, s, q, budget, alpha, beta, depth);
    if depth == 0 || q.size() == 0 {
        none
    } else if q.of(side).len() == 0 {
        let plies = plans_replay_a_line_of_play(
            d,
            eval,
            side.other_spec(),
            s,
            q,
            budget,
            alpha,
            beta,
            depth,
        );
        lemma_explains_on(d, eval, b, Ply::Yield, plies, r.value, r.plan);
        seq![Ply::Yield] + plies
    } else {
        let front = q.of(side).last();
        let rest = q.with(side, q.of(side).drop_last());
        let stuck = PlayView { value: side.worst_spec(), plan: Seq::empty(), left: budget };
        match d.tasks@[front as int] {
            Task::Primitive(p) => {
                if p.ready(s) {
                    let plies = plans_replay_a_line_of_play(
                        d,
                        eval,
                        side.other_spec(),
                        p.after(s),
                        rest,
                        budget,
                        alpha,
                        beta,
                        (depth - 1) as nat,
                    );
                    let below = played(
                        d,
                        eval,
                        side.other_spec(),
                        p.after(s),
                        rest,
                        budget,
                        alpha,
                        beta,
                        (depth - 1) as nat,
                    );
                    lemma_explains_on(d, eval, b, Ply::Execute, plies, below.value, below.plan);
                    seq![Ply::Execute] + plies
                } else {
                    none
                }
            },
            Task::Compound(c) => {
                if budget == 0 || valid_methods(c, s).len() == 0 {
                    none
                } else {
                    assert(explains(d, eval, b, none, stuck.value, stuck.plan));
                    lemma_branches_replay(d, eval, side, s, q, stuck, 0, alpha, beta, depth, none)
                }
            },
            Task::Goal(_) => {
                let plies = plans_replay_a_line_of_play(
                    d,
                    eval,
                    side,
                    s,
                    rest,
                    budget,
                    alpha,
                    beta,
                    depth,
                );
                lemma_explains_on(d, eval, b, Ply::Skip, plies, r.value, r.plan);
                seq![Ply::Skip] + plies
            },
        }
    }
}

proof fn lemma_branches_replay<M: PlanModel>(
    d: HtnDomain<M>,
    eval: M::Score,
    side: Side,
    s: ModelState<M>,
    q: QueuesView,
    best: PlayView,
    i: nat,
    alpha: i64,
    beta: i64,
    depth: nat,
    so_far: Seq<Ply>,
) -> (plies: Seq<Ply>)
    requires
        depth > 0,
        q.of(side).len() > 0,
        d.tasks@[q.of(side).last() as int] is Compound,
        explains(d, eval, board(side, s, q, depth), so_far, best.value, best.plan),
    ensures
        ({
            let r = played_from(d, eval, side, s, q, best, i, alpha, beta, depth);
            explains(d, eval, board(side, s, q, depth), plies, r.value, r.plan)
        }),
    decreases
        depth,
        best.left,
        0nat,
        0nat,
        d.tasks@[q.of(side).last() as int]->Compound_0.methods@.len() - i,
{
    let c = d.tasks@[q.of(side).last() as int]->Compound_0;
    if i >= c.methods@.len() {
        so_far
    } else if !c.methods@[i as int].valid(s) {
        lemma_branches_replay(d, eval, side, s, q, best, i + 1, alpha, beta, depth, so_far)
    } else if best.left == 0 {
        so_far
    } else {
        let child = q.with(side, with_members(q.of(side).drop_last(), c.methods@[i as int]));
        let less = (best.left - 1) as nat;
        let r = played(d, eval, side, s, child, less, alpha, beta, depth);
        let left = if r.left < best.left {
            r.left
        } else {
            less
        };
        let plies = plans_replay_a_line_of_play(
            d,
            eval,
            side,
            s,
            child,
            less,
            alpha,
            beta,
            depth,
        );
        let b = board(side, s, q, depth);
        lemma_explains_on(d, eval, b, Ply::Choose(i), plies, r.value, r.plan);
        let better = side.prefers(r.value, best.value);
        let next = if better {
            PlayView { left, ..r }
        } else {
            PlayView { left, ..best }
        };
        let kept = if better {
            seq![Ply::Choose(i)] + plies
        } else {
            so_far
        };
        let (alpha2, beta2) = side.narrowed(alpha, beta, next.value);
        if alpha2 >= beta2 {
            kept
        } else {
            lemma_branches_replay(d, eval, side, s, q, next, i + 1, alpha2, beta2, depth, kept)
        }
    }
}

/// Whether a value is at least as good for a player as another.
pub open spec fn as_good(side: Side, a: i64, b: i64) -> bool {
    if side is Max {
        a >= b
    } else {
        a <= b
    }
}

/// The minimax value of a position after the branch `i` of the task at the front
/// is chosen.
pub open spec fn branch_value<M: PlanModel>(
    d: HtnDomain<M>,
    eval: M::Score,
    side: Side,
    s: ModelState<M>,
    q: QueuesView,
    cut: nat,
    depth: nat,
    i: int,
) -> i64 {
    let m = d.tasks@[q.of(side).last() as int]->Compound_0.methods@[i];
    let queue = q.of(side).drop_last() + m.run_order().reverse();
    minimax(
        d,
        eval,
        side,
        s,
        if side is Max {
            QueuesView { max: queue, ..q }
        } else {
            QueuesView { min: queue, ..q }
        },
        (cut - 1) as nat,
        depth,
    ).0
}

proof fn lemma_best_branch<M: PlanModel>(
    d: HtnDomain<M>,
    eval: M::Score,
    side: Side,
    s: ModelState<M>,
    q: QueuesView,
    cut: nat,
    n: nat,
    depth: nat,
)
    requires
        cut > 0,
        n <= d.tasks@[q.of(side).last() as int]->Compound_0.methods@.len(),
    ensures
        ({
            let v = minimax_below(d, eval, side, s, q, cut, n, depth).0;
            &&& forall|i: int|
                0 <= i < n && (
                #[trigger] d.tasks@[q.of(side).last() as int]->Compound_0.methods@[i]).valid(s)
                    ==> as_good(side, v, branch_value(d, eval, side, s, q, cut, depth, i))
            &&& v == side.worst_spec() || exists|i: int|
                0 <= i < n && (
                #[trigger] d.tasks@[q.of(side).last() as int]->Compound_0.methods@[i]).valid(s) && v
                    == branch_value(d, eval, side, s, q, cut, depth, i)
        }),
    decreases n,
{
    if n > 0 {
        lemma_best_branch(d, eval, side, s, q, cut, (n - 1) as nat, depth);
        let m = d.tasks@[q.of(side).last() as int]->Compound_0.methods@[n - 1];
        let child = q.with(side, with_members(q.of(side).drop_last(), m));
        if m.valid(s) {
            assert(branch_value(d, eval, side, s, q, cut, depth, n - 1) == minimax(
                d,
                eval,
                side,
                s,
                child,
                (cut - 1) as nat,
                depth,
            ).0);
        }
    }
}

/// A task is worth to its player as much as every branch that applies, and it is
/// worth one of them, or the worst.
pub proof fn a_task_is_worth_its_best_branch<M: PlanModel>(
    d: HtnDomain<M>,
    eval: M::Score,
    side: Side,
    s: ModelState<M>,
    q: QueuesView,
    cut: nat,
    depth: nat,
    c: CompoundTask<M>,
)
    requires
        depth > 0,
        cut > 0,
        q.of(side).len() > 0,
        d.tasks@[q.of(side).last() as int] == Task::Compound(c),
    ensures
        forall|i: int|
            0 <= i < c.methods@.len() && (#[trigger] c.methods@[i]).valid(s) ==> as_good(
                side,
                minimax(d, eval, side, s, q, cut, depth).0,
                branch_value(d, eval, side, s, q, cut, depth, i),
            ),
        minimax(d, eval, side, s, q, cut, depth).0 == (if side is Max {
            i64::MIN
        } else {
            i64::MAX
        }) || exists|i: int|
            0 <= i < c.methods@.len() && (#[trigger] c.methods@[i]).valid(s) && minimax(
                d,
                eval,
                side,
                s,
                q,
                cut,
                depth,
            ).0 == branch_value(d, eval, side, s, q, cut, depth, i),
{
    lemma_best_branch(d, eval, side, s, q, cut, c.methods@.len(), depth);
    assert(d.tasks@[q.of(side).last() as int]->Compound_0.methods@ == c.methods@);
}

/// The minimax value passes along forced moves. A finished game is worth its
/// score. A player with nothing to do passes the value on, and so does a primitive
/// that is ready, from where it leads with the opponent to move, and a skipped
/// goal. A primitive that is not ready is worth the worst, and so is a task beyond
/// the cut.
pub proof fn minimax_passes_along_forced_moves<M: PlanModel>(
    d: HtnDomain<M>,
    eval: M::Score,
    side: Side,
    s: ModelState<M>,
    q: QueuesView,
    cut: nat,
    depth: nat,
    mine: Seq<usize>,
    foe: Side,
    rest: QueuesView,
)
    requires
        side is Max ==> mine == q.max && foe is Min && rest == (QueuesView {
            max: mine.drop_last(),
            ..q
        }),
        side is Min ==> mine == q.min && foe is Max && rest == (QueuesView {
            min: mine.drop_last(),
            ..q
        }),
    ensures
        ({
            let v = minimax(d, eval, side, s, q, cut, depth).0;
            let worst = if side is Max {
                i64::MIN
            } else {
                i64::MAX
            };
            if depth == 0 || (q.max.len() == 0 && q.min.len() == 0) {
                v == M::score_of(eval, s)
            } else if mine.len() == 0 {
                v == minimax(d, eval, foe, s, q, cut, depth).0
            } else {
                match d.tasks@[mine.last() as int] {
                    Task::Primitive(p) => if p.ready(s) {
                        v == minimax(d, eval, foe, p.after(s), rest, cut, (depth - 1) as nat).0
                    } else {
                        v == worst
                    },
                    Task::Compound(c) => cut == 0 ==> v == worst,
                    Task::Goal(_) => v == minimax(d, eval, side, s, rest, cut, depth).0,
                }
            }
        }),
{
}

/// How many branches the game tree of a position has, cut where `cut`
/// decompositions lie above.
pub open spec fn tree_branches<M: PlanModel>(
    d: HtnDomain<M>,
    side: Side,
    s: ModelState<M>,
    q: QueuesView,
    cut: nat,
    depth: nat,
) -> nat
    decreases depth, cut, q.size(), (if q.of(side).len() == 0 { 1nat } else { 0nat }), 0nat,
{
    if depth == 0 || q.size() == 0 {
        0
    } else if q.of(side).len() == 0 {
        tree_branches(d, side.other_spec(), s, q, cut, depth)
    } else {
        let rest = q.with(side, q.of(side).drop_last());
        match d.tasks@[q.of(side).last() as int] {
            Task::Primitive(p) => if p.ready(s) {
                tree_branches(d, side.other_spec(), p.after(s), rest, cut, (depth - 1) as nat)
            } else {
                0
            },
            Task::Compound(c) => if cut == 0 {
                0
            } else {
                branches_from(d, side, s, q, cut, 0, depth)
            },
            Task::Goal(_) => tree_branches(d, side, s, rest, cut, depth),
        }
    }
}

/// How many branches lie at and beneath those of the task at the front from index
/// `i` on.
pub open spec fn branches_from<M: PlanModel>(
    d: HtnDomain<M>,
    side: Side,
    s: ModelState<M>,
    q: QueuesView,
    cut: nat,
    i: nat,
    depth: nat,
) -> nat
    decreases
        depth,
        cut,
        0nat,
        0nat,
        d.tasks@[q.of(side).last() as int]->Compound_0.methods@.len() - i,
{
    let c = d.tasks@[q.of(side).last() as int]->Compound_0;
    if i >= c.methods@.len() || cut == 0 {
        0
    } else {
        branches_from(d, side, s, q, cut, i + 1, depth) + if c.methods@[i as int].valid(s) {
            1 + tree_branches(
                d,
                side,
                s,
                q.with(side, with_members(q.of(side).drop_last(), c.methods@[i as int])),
                (cut - 1) as nat,
                depth,
            )
        } else {
            0nat
        }
    }
}

/// A search uses no more of its budget than the game tree has branches: one unit
/// for each branch that it goes into. With a larger budget it never runs out.
pub proof fn the_budget_counts_branches<M: PlanModel>(
    d: HtnDomain<M>,
    eval: M::Score,
    side: Side,
    s: ModelState<M>,
    q: QueuesView,
    budget: nat,
    alpha: i64,
    beta: i64,
    depth: nat,
    cut: nat,
)
    requires
        budget <= cut,
    ensures
        played(d, eval, side, s, q, budget, alpha, beta, depth).left <= budget,
        budget <= played(d, eval, side, s, q, budget, alpha, beta, depth).left + tree_branches(
            d,
            side,
            s,
            q,
            cut,
            depth,
        ),
    decreases depth, budget, q.size(), (if q.of(side).len() == 0 { 1nat } else { 0nat }), 0nat,
{
    lemma_played_left(d, eval, side, s, q, budget, alpha, beta, depth);
    if depth == 0 || q.size() == 0 {
    } else if q.of(side).len() == 0 {
        the_budget_counts_branches(
            d,
            eval,
            side.other_spec(),
            s,
            q,
            budget,
            alpha,
            beta,
            depth,
            cut,
        );
    } else {
        let rest = q.with(side, q.of(side).drop_last());
        let stuck = PlayView { value: side.worst_spec(), plan: Seq::empty(), left: budget };
        match d.tasks@[q.of(side).last() as int] {
            Task::Primitive(p) => {
                if p.ready(s) {
                    the_budget_counts_branches(
                        d,
                        eval,
                        side.other_spec(),
                        p.after(s),
                        rest,
                        budget,
                        alpha,
                        beta,
                        (depth - 1) as nat,
                        cut,
                    );
                }
            },
            Task::Compound(c) => {
                if budget > 0 {
                    lemma_budget_from(d, eval, side, s, q, stuck, 0, alpha, beta, depth, cut);
                }
            },
            Task::Goal(_) => {
                the_budget_counts_branches(
                    d,
                    eval,
                    side,
                    s,
                    rest,
                    budget,
                    alpha,
                    beta,
                    depth,
                    cut,
                );
            },
        }
    }
}

proof fn lemma_budget_from<M: PlanModel>(
    d: HtnDomain<M>,
    eval: M::Score,
    side: Side,
    s: ModelState<M>,
    q: QueuesView,
    best: PlayView,
    i: nat,
    alpha: i64,
    beta: i64,
    depth: nat,
    cut: nat,
)
    requires
        best.left <= cut,
        cut > 0,
    ensures
        best.left <= played_from(d, eval, side, s, q, best, i, alpha, beta, depth).left
            + branches_from(d, side, s, q, cut, i, depth),
    decreases
        depth,
        best.left,
        0nat,
        0nat,
        d.tasks@[q.of(side).last() as int]->Compound_0.methods@.len() - i,
{
    let c = d.tasks@[q.of(side).last() as int]->Compound_0;
    if i >= c.methods@.len() {
    } else if !c.methods@[i as int].valid(s) {
        lemma_budget_from(d, eval, side, s, q, best, i + 1, alpha, beta, depth, cut);
    } else if best.left > 0 {
        let child = q.with(side, with_members(q.of(side).drop_last(), c.methods@[i as int]));
        let less = (best.left - 1) as nat;
        let r = played(d, eval, side, s, child, less, alpha, beta, depth);
        the_budget_counts_branches(
            d,
            eval,
            side,
            s,
            child,
            less,
            alpha,
            beta,
            depth,
            (cut - 1) as nat,
        );
        let next = if side.prefers(r.value, best.value) {
            r
        } else {
            PlayView { left: r.left, ..best }
        };
        let (alpha2, beta2) = side.narrowed(alpha, beta, next.value);
        if alpha2 < beta2 {
            lemma_budget_from(d, eval, side, s, q, next, i + 1, alpha2, beta2, depth, cut);
        }
    }
}

} // verus!
