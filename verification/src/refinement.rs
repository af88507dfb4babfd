//! What it means to decompose work: a run of moves, each of which runs a
//! primitive task or replaces a compound task by the members of a method.
//!
//! Runs say what a plan is worth without reference to how it was searched for.
//! The summaries and the look-ahead are sound for them.

use crate::domain::{HtnDomain, Method, Task};
use crate::model::{ModelState, PlanModel};
use crate::order::{orders_are_the_topological_orders, topo_orders, SubtaskOrder};
use crate::planner::ResumeStep;
use crate::search::{members_at, members_from, members_in_order, work_of};
use crate::summaries::{
    least_method, least_stage, member_sum, method_shape, network, summarizes, yields, MethodShape,
};
use vstd::prelude::*;

verus! {

/// One move of a run.
pub enum Move {
    /// Runs the primitive task at the front.
    Do(usize),
    /// Replaces the compound task at the front by the members of its method, in
    /// the method's order at index `lin`.
    Choose {
        /// The method's index.
        method: nat,
        /// The index of the order.
        lin: nat,
    },
}

/// Where a run stands: the state, and the work left.
pub struct Position<C> {
    /// The scratchpad state.
    pub state: crate::state::StateView<C>,
    /// The work left, front first.
    pub work: Seq<ResumeStep>,
}

/// Whether a method has an order at index `lin` that the search tries.
pub open spec fn has_order<M: PlanModel>(m: Method<M>, lin: nat) -> bool {
    match m.order {
        SubtaskOrder::Total => lin == 0,
        SubtaskOrder::Partial { preds, orders, first } => lin < orders,
    }
}

/// The work that a method's members come to, in its order at index `lin`.
pub open spec fn method_work<M: PlanModel>(m: Method<M>, lin: nat) -> Seq<ResumeStep> {
    match m.order {
        SubtaskOrder::Total => work_of(members_from(m, Seq::empty(), 0)),
        SubtaskOrder::Partial { .. } => work_of(members_at(m, lin)),
    }
}

/// What one move does, where it applies.
pub open spec fn make_move<M: PlanModel>(
    d: HtnDomain<M>,
    at: Position<M::Component>,
    mv: Move,
) -> Option<Position<M::Component>> {
    if at.work.len() == 0 {
        None
    } else {
        match (at.work[0], mv) {
            (ResumeStep::Task(t), Move::Do(u)) => match d.tasks@[t as int] {
                Task::Primitive(p) => if t == u && p.ready(at.state) {
                    Some(Position { state: p.after(at.state), work: at.work.skip(1) })
                } else {
                    None
                },
                _ => None,
            },
            (ResumeStep::Task(t), Move::Choose { method, lin }) => match d.tasks@[t as int] {
                Task::Compound(c) => if method < c.methods@.len()
                    && c.methods@[method as int].valid(at.state) && has_order(
                    c.methods@[method as int],
                    lin,
                ) {
                    Some(
                        Position {
                            state: at.state,
                            work: method_work(c.methods@[method as int], lin) + at.work.skip(1),
                        },
                    )
                } else {
                    None
                },
                _ => None,
            },
            _ => None,
        }
    }
}

/// Where a run of moves leads, where every move applies.
pub open spec fn play<M: PlanModel>(
    d: HtnDomain<M>,
    at: Position<M::Component>,
    moves: Seq<Move>,
) -> Option<Position<M::Component>>
    decreases moves.len(),
{
    if moves.len() == 0 {
        Some(at)
    } else {
        match make_move(d, at, moves[0]) {
            None => None,
            Some(next) => play(d, next, moves.skip(1)),
        }
    }
}

/// Whether a run decomposes all the work, and ends in state `e`.
pub open spec fn drains<M: PlanModel>(
    d: HtnDomain<M>,
    s: ModelState<M>,
    work: Seq<ResumeStep>,
    moves: Seq<Move>,
    e: ModelState<M>,
) -> bool {
    play(d, Position { state: s, work }, moves) == Some(
        Position::<M::Component> { state: e, work: Seq::empty() },
    )
}

/// The primitive tasks that a run runs, in order.
pub open spec fn steps_of(moves: Seq<Move>) -> Seq<usize>
    decreases moves.len(),
{
    if moves.len() == 0 {
        Seq::empty()
    } else {
        match moves.last() {
            Move::Do(t) => steps_of(moves.drop_last()).push(t),
            _ => steps_of(moves.drop_last()),
        }
    }
}

/// The methods that a run chooses, in order.
pub open spec fn methods_of(moves: Seq<Move>) -> Seq<usize>
    decreases moves.len(),
{
    if moves.len() == 0 {
        Seq::empty()
    } else {
        match moves.last() {
            Move::Choose { method, lin } => methods_of(moves.drop_last()).push(method as usize),
            _ => methods_of(moves.drop_last()),
        }
    }
}

/// A run of two parts is the second part from where the first leads.
pub proof fn lemma_play_concat<M: PlanModel>(
    d: HtnDomain<M>,
    at: Position<M::Component>,
    a: Seq<Move>,
    b: Seq<Move>,
)
    ensures
        play(d, at, a + b) == (match play(d, at, a) {
            Some(mid) => play(d, mid, b),
            None => None,
        }),
    decreases a.len(),
{
    if a.len() == 0 {
        assert(a + b =~= b);
    } else {
        assert((a + b)[0] == a[0]);
        assert((a + b).skip(1) =~= a.skip(1) + b);
        match make_move(d, at, a[0]) {
            Some(next) => {
                lemma_play_concat(d, next, a.skip(1), b);
            },
            None => {},
        }
    }
}

/// A move at the end of a run.
pub proof fn lemma_play_push<M: PlanModel>(
    d: HtnDomain<M>,
    at: Position<M::Component>,
    a: Seq<Move>,
    mv: Move,
)
    ensures
        play(d, at, a.push(mv)) == (match play(d, at, a) {
            Some(mid) => make_move(d, mid, mv),
            None => None,
        }),
{
    assert(a.push(mv) =~= a + seq![mv]);
    lemma_play_concat(d, at, a, seq![mv]);
    match play(d, at, a) {
        Some(mid) => {
            match make_move(d, mid, mv) {
                Some(next) => {
                    assert(seq![mv].skip(1) =~= Seq::<Move>::empty());
                    assert(play(d, next, seq![mv].skip(1)) == Some(next));
                },
                None => {},
            }
        },
        None => {},
    }
}

/// A move does not look behind the front of the work.
pub proof fn lemma_move_framed<M: PlanModel>(
    d: HtnDomain<M>,
    at: Position<M::Component>,
    b: Seq<ResumeStep>,
    mv: Move,
)
    requires
        at.work.len() > 0,
    ensures
        make_move(d, Position { work: at.work + b, ..at }, mv) == (match make_move(d, at, mv) {
            Some(next) => Some(Position { work: next.work + b, ..next }),
            None => None,
        }),
{
    assert((at.work + b)[0] == at.work[0]);
    assert((at.work + b).skip(1) =~= at.work.skip(1) + b);
    match (at.work[0], mv) {
        (ResumeStep::Task(t), Move::Choose { method, lin }) => {
            match d.tasks@[t as int] {
                Task::Compound(c) => {
                    let m = method_work(c.methods@[method as int], lin);
                    assert(m + (at.work.skip(1) + b) =~= (m + at.work.skip(1)) + b);
                },
                _ => {},
            }
        },
        _ => {},
    }
}

/// A run that decomposes `a` in front of `b` first decomposes `a`.
pub proof fn lemma_drain_split<M: PlanModel>(
    d: HtnDomain<M>,
    s: ModelState<M>,
    a: Seq<ResumeStep>,
    b: Seq<ResumeStep>,
    moves: Seq<Move>,
    e: ModelState<M>,
) -> (r: (nat, ModelState<M>))
    requires
        drains(d, s, a + b, moves, e),
    ensures
        r.0 <= moves.len(),
        drains(d, s, a, moves.take(r.0 as int), r.1),
        drains(d, r.1, b, moves.skip(r.0 as int), e),
    decreases moves.len(),
{
    if a.len() == 0 {
        assert(a + b =~= b);
        assert(moves.take(0) =~= Seq::<Move>::empty());
        assert(moves.skip(0) =~= moves);
        assert(a =~= Seq::<ResumeStep>::empty());
        (0, s)
    } else if moves.len() == 0 {
        assert((a + b).len() > 0);
        (0, s)
    } else {
        let at = Position { state: s, work: a };
        lemma_move_framed(d, at, b, moves[0]);
        assert(make_move(d, at, moves[0]) is Some) by {
            assert(make_move(d, Position { work: a + b, ..at }, moves[0]) is Some);
        }
        let next = make_move(d, at, moves[0])->Some_0;
        let (k, mid) = lemma_drain_split(d, next.state, next.work, b, moves.skip(1), e);
        let n = (k + 1) as int;
        assert(moves.take(n)[0] == moves[0]);
        assert(moves.take(n).skip(1) =~= moves.skip(1).take(k as int));
        assert(moves.skip(n) =~= moves.skip(1).skip(k as int));
        (k + 1, mid)
    }
}

/// A run that decomposes `a` leaves what stands behind it.
pub proof fn lemma_play_framed<M: PlanModel>(
    d: HtnDomain<M>,
    s: ModelState<M>,
    a: Seq<ResumeStep>,
    x: Seq<Move>,
    mid: ModelState<M>,
    b: Seq<ResumeStep>,
)
    requires
        drains(d, s, a, x, mid),
    ensures
        play(d, Position { state: s, work: a + b }, x) == Some(
            Position::<M::Component> { state: mid, work: b },
        ),
    decreases x.len(),
{
    if x.len() == 0 {
        assert(a + b =~= b);
    } else {
        let at = Position { state: s, work: a };
        lemma_move_framed(d, at, b, x[0]);
        let next = make_move(d, at, x[0])->Some_0;
        lemma_play_framed(d, next.state, next.work, x.skip(1), mid, b);
    }
}

/// Whether work names what the domain has.
pub open spec fn known_work<M: PlanModel>(d: HtnDomain<M>, work: Seq<ResumeStep>) -> bool {
    forall|i: int|
        0 <= i < work.len() ==> ((#[trigger] work[i]) matches ResumeStep::Task(t) ==> t
            < d.tasks@.len())
}

/// Whether every task of `work` is a member of a method.
pub open spec fn from_members<M: PlanModel>(m: Method<M>, work: Seq<ResumeStep>) -> bool {
    forall|i: int|
        0 <= i < work.len() ==> ((#[trigger] work[i]) matches ResumeStep::Task(t) ==> exists|k: int|
            0 <= k < m.subtasks@.len() && m.subtasks@[k] == t)
}

proof fn lemma_total_work<M: PlanModel>(
    m: Method<M>,
    pins: Seq<(usize, usize)>,
    pos: nat,
)
    ensures
        from_members(m, work_of(members_from(m, pins, pos))),
        work_of(members_from(m, pins, pos)) == work_of(members_from(m, Seq::empty(), pos)),
        forall|k: int|
            pos <= k < m.subtasks@.len() ==> work_of(members_from(m, pins, pos)).contains(
                ResumeStep::Task(#[trigger] m.subtasks@[k]),
            ),
    decreases m.subtasks@.len() - pos,
{
    let here = members_from(m, pins, pos);
    let plain = members_from(m, Seq::empty(), pos);
    if pos < m.subtasks@.len() {
        lemma_total_work(m, pins, pos + 1);
        let rest = members_from(m, pins, pos + 1);
        let plain_rest = members_from(m, Seq::empty(), pos + 1);
        let n = here.len() - rest.len();
        assert(here.len() == plain.len()) by {
            assert(work_of(rest).len() == work_of(plain_rest).len());
        }
        assert forall|i: int| 0 <= i < here.len() implies work_of(here)[i] == work_of(plain)[i] by {
            if i >= n {
                assert(here[i] == rest[i - n]);
                assert(plain[i] == plain_rest[i - n]);
                assert(work_of(rest)[i - n] == work_of(plain_rest)[i - n]);
            }
        }
        assert(work_of(here) =~= work_of(plain));
        assert forall|i: int| 0 <= i < work_of(here).len() implies ((#[trigger] work_of(here)[i])
            matches ResumeStep::Task(t) ==> exists|k: int|
            0 <= k < m.subtasks@.len() && m.subtasks@[k] == t) by {
            if i >= n {
                assert(here[i] == rest[i - n]);
                assert(work_of(here)[i] == work_of(rest)[i - n]);
            } else if i == n - 1 {
                assert(work_of(here)[i] == ResumeStep::Task(m.subtasks@[pos as int]));
            }
        }
        assert forall|k: int| pos <= k < m.subtasks@.len() implies work_of(here).contains(
            ResumeStep::Task(#[trigger] m.subtasks@[k]),
        ) by {
            if k == pos {
                assert(work_of(here)[n - 1] == ResumeStep::Task(m.subtasks@[k]));
            } else {
                let j = work_of(rest).index_of(ResumeStep::Task(m.subtasks@[k]));
                assert(work_of(rest).contains(ResumeStep::Task(m.subtasks@[k])));
                assert(here[j + n] == rest[j]);
                assert(work_of(here)[j + n] == work_of(rest)[j]);
            }
        }
    } else {
        assert(work_of(here) =~= work_of(plain));
    }
}

proof fn lemma_ordered_work<M: PlanModel>(
    m: Method<M>,
    order: Seq<u8>,
    pins: Seq<(usize, usize)>,
    k: nat,
)
    requires
        k <= order.len(),
    ensures
        work_of(members_in_order(m, order, pins, k)) == Seq::new(
            (order.len() - k) as nat,
            |i: int| ResumeStep::Task(m.subtasks@[order[k + i] as int]),
        ),
    decreases order.len() - k,
{
    let here = members_in_order(m, order, pins, k);
    let expected = Seq::new(
        (order.len() - k) as nat,
        |i: int| ResumeStep::Task(m.subtasks@[order[k + i] as int]),
    );
    if k < order.len() {
        lemma_ordered_work(m, order, pins, k + 1);
        let rest = members_in_order(m, order, pins, k + 1);
        let expected_rest = Seq::new(
            (order.len() - (k + 1)) as nat,
            |i: int| ResumeStep::Task(m.subtasks@[order[(k + 1) + i] as int]),
        );
        assert(work_of(rest) == expected_rest);
        assert(work_of(rest).len() == rest.len());
        assert forall|i: int| 0 <= i < here.len() implies work_of(here)[i] == expected[i] by {
            if i > 0 {
                assert(here[i] == rest[i - 1]);
                assert(work_of(rest)[i - 1] == expected_rest[i - 1]);
            }
        }
        assert(work_of(here) =~= expected);
    } else {
        assert(work_of(here) =~= expected);
    }
}

/// A partially-ordered method's work lists its members in the enumerated order.
pub proof fn lemma_partial_work<M: PlanModel>(m: Method<M>, lin: nat)
    requires
        m.order_wf(),
        m.order is Partial,
        has_order(m, lin),
    ensures
        ({
            let order = topo_orders(m.order->preds@)[lin as int];
            &&& order.len() == m.subtasks@.len()
            &&& forall|i: int| 0 <= i < order.len() ==> (#[trigger] order[i]) < m.subtasks@.len()
            &&& forall|i: int, j: int| 0 <= i < j < order.len() ==> order[i] != order[j]
            &&& method_work(m, lin) == Seq::new(
                order.len(),
                |i: int| ResumeStep::Task(m.subtasks@[order[i] as int]),
            )
        }),
{
    let preds = m.order->preds@;
    let order = topo_orders(preds)[lin as int];
    assert(lin < topo_orders(preds).len());
    orders_are_the_topological_orders(preds, order);
    assert forall|i: int, j: int| 0 <= i < j < order.len() implies order[i] != order[j] by {
        assert(order[j] < preds.len());
        assert(order.take(j)[i] == order[i]);
    }
    lemma_ordered_work(m, order, Seq::empty(), 0);
    assert(method_work(m, lin) =~= Seq::new(
        order.len(),
        |i: int| ResumeStep::Task(m.subtasks@[order[i] as int]),
    ));
}

/// The work that committing a method queues is the method's work, whatever its
/// pins.
pub proof fn lemma_members_work<M: PlanModel>(m: Method<M>, pins: Seq<(usize, usize)>)
    requires
        m.order_wf(),
    ensures
        work_of(crate::search::members(m, pins)) == method_work(m, 0),
        has_order(m, 0),
{
    match m.order {
        SubtaskOrder::Total => {
            lemma_total_work(m, pins, 0);
        },
        SubtaskOrder::Partial { preds, orders, first } => {
            lemma_ordered_work(m, first@, pins, 0);
            lemma_ordered_work(m, first@, Seq::empty(), 0);
        },
    }
}

/// The tasks of a method's work are its members, and every member is there.
pub proof fn lemma_work_members<M: PlanModel>(m: Method<M>, lin: nat)
    requires
        m.order_wf(),
        has_order(m, lin),
    ensures
        from_members(m, method_work(m, lin)),
        forall|k: int|
            0 <= k < m.subtasks@.len() ==> method_work(m, lin).contains(
                ResumeStep::Task(#[trigger] m.subtasks@[k]),
            ),
{
    match m.order {
        SubtaskOrder::Total => {
            lemma_total_work(m, Seq::empty(), 0);
        },
        SubtaskOrder::Partial { preds, orders, first } => {
            lemma_partial_work(m, lin);
            let order = topo_orders(preds@)[lin as int];
            let work = method_work(m, lin);
            assert forall|i: int| 0 <= i < work.len() implies ((#[trigger] work[i])
                matches ResumeStep::Task(t) ==> exists|k: int|
                0 <= k < m.subtasks@.len() && m.subtasks@[k] == t) by {
                assert(work[i] == ResumeStep::Task(m.subtasks@[order[i] as int]));
            }
            assert forall|k: int| 0 <= k < m.subtasks@.len() implies work.contains(
                ResumeStep::Task(#[trigger] m.subtasks@[k]),
            ) by {
                let positions = Seq::new(order.len(), |i: int| order[i] as int);
                let j = lemma_position_of(positions, k);
                assert(work[j] == ResumeStep::Task(m.subtasks@[k]));
            }
        },
    }
}

/// A sequence of distinct positions below its length holds every one of them.
proof fn lemma_position_of(order: Seq<int>, k: int) -> (j: int)
    requires
        forall|i: int| 0 <= i < order.len() ==> 0 <= (#[trigger] order[i]) < order.len(),
        forall|i: int, j: int| 0 <= i < j < order.len() ==> order[i] != order[j],
        0 <= k < order.len(),
    ensures
        0 <= j < order.len(),
        order[j] == k,
{
    let n = order.len();
    if !order.contains(k) {
        // The positions would all lie in a set that is too small for them.
        let all = vstd::set_lib::set_int_range(0, n as int);
        vstd::set_lib::lemma_int_range(0, n as int);
        let some = all.remove(k);
        assert(order.no_duplicates());
        order.unique_seq_to_set();
        assert(order.to_set().subset_of(some)) by {
            assert forall|x: int| order.to_set().contains(x) implies some.contains(x) by {
                let i = order.index_of(x);
                assert(order[i] == x);
            }
        }
        vstd::set_lib::lemma_len_subset(order.to_set(), some);
        assert(false);
    }
    order.index_of(k)
}

/// The sum of `v` over the first `k` entries of a list of tasks.
pub open spec fn task_sum(tasks: Seq<u32>, v: Seq<nat>, k: nat) -> nat
    decreases k,
{
    if k == 0 {
        0
    } else {
        task_sum(tasks, v, (k - 1) as nat) + v[tasks[k - 1] as int]
    }
}

/// The sum of `v` over the tasks of some work.
pub open spec fn work_sum(work: Seq<ResumeStep>, v: Seq<nat>) -> nat
    decreases work.len(),
{
    if work.len() == 0 {
        0
    } else {
        work_sum(work.drop_last(), v) + match work.last() {
            ResumeStep::Task(t) => v[t as int],
            ResumeStep::Pause => 0,
        }
    }
}

pub proof fn lemma_work_sum_concat(a: Seq<ResumeStep>, b: Seq<ResumeStep>, v: Seq<nat>)
    ensures
        work_sum(a + b, v) == work_sum(a, v) + work_sum(b, v),
    decreases b.len(),
{
    if b.len() == 0 {
        assert(a + b =~= a);
    } else {
        assert((a + b).drop_last() =~= a + b.drop_last());
        assert((a + b).last() == b.last());
        lemma_work_sum_concat(a, b.drop_last(), v);
    }
}

pub proof fn lemma_work_sum_front(work: Seq<ResumeStep>, v: Seq<nat>)
    requires
        work.len() > 0,
    ensures
        work_sum(work, v) == work_sum(work.skip(1), v) + (match work[0] {
            ResumeStep::Task(t) => v[t as int],
            ResumeStep::Pause => 0,
        }),
{
    assert(work =~= work.take(1) + work.skip(1));
    lemma_work_sum_concat(work.take(1), work.skip(1), v);
    assert(work.take(1).drop_last() =~= Seq::<ResumeStep>::empty());
    assert(work_sum(work.take(1).drop_last(), v) == 0);
}

proof fn lemma_total_sum<M: PlanModel>(m: Method<M>, v: Seq<nat>, pos: nat)
    requires
        pos <= m.subtasks@.len(),
    ensures
        work_sum(work_of(members_from(m, Seq::empty(), pos)), v) + task_sum(m.subtasks@, v, pos)
            == task_sum(m.subtasks@, v, m.subtasks@.len()),
    decreases m.subtasks@.len() - pos,
{
    let here = work_of(members_from(m, Seq::empty(), pos));
    if pos < m.subtasks@.len() {
        lemma_total_sum(m, v, pos + 1);
        let rest = work_of(members_from(m, Seq::empty(), pos + 1));
        let task = seq![ResumeStep::Task(m.subtasks@[pos as int])];
        let front = if m.pause_positions@.contains(pos as u32) {
            seq![ResumeStep::Pause] + task
        } else {
            task
        };
        assert(here =~= front + rest);
        lemma_work_sum_concat(front, rest, v);
        lemma_work_sum_front(front, v);
        if m.pause_positions@.contains(pos as u32) {
            assert(front.skip(1) =~= task);
            lemma_work_sum_front(task, v);
        }
        assert(task.skip(1) =~= Seq::<ResumeStep>::empty());
        assert(work_sum(Seq::<ResumeStep>::empty(), v) == 0);
    } else {
        if m.pause_positions@.contains(pos as u32) {
            assert(here =~= seq![ResumeStep::Pause]);
            lemma_work_sum_front(here, v);
            assert(here.skip(1) =~= Seq::<ResumeStep>::empty());
        } else {
            assert(here =~= Seq::<ResumeStep>::empty());
        }
    }
}

/// The sum of `f` over the first `k` positions of an order.
spec fn order_sum(order: Seq<int>, f: spec_fn(int) -> nat, k: nat) -> nat
    decreases k,
{
    if k == 0 {
        0
    } else {
        order_sum(order, f, (k - 1) as nat) + f(order[k - 1])
    }
}

proof fn lemma_order_sum_remove(order: Seq<int>, f: spec_fn(int) -> nat, j: int, k: nat)
    requires
        0 <= j < k <= order.len(),
    ensures
        order_sum(order, f, k) == order_sum(order.remove(j), f, (k - 1) as nat) + f(order[j]),
    decreases k,
{
    let rest = order.remove(j);
    if k - 1 == j {
        lemma_order_sum_same(order, rest, f, j as nat);
    } else {
        lemma_order_sum_remove(order, f, j, (k - 1) as nat);
        assert(rest[k - 2] == order[k - 1]);
    }
}

proof fn lemma_order_sum_same(a: Seq<int>, b: Seq<int>, f: spec_fn(int) -> nat, k: nat)
    requires
        k <= a.len(),
        k <= b.len(),
        forall|i: int| 0 <= i < k ==> a[i] == b[i],
    ensures
        order_sum(a, f, k) == order_sum(b, f, k),
    decreases k,
{
    if k > 0 {
        lemma_order_sum_same(a, b, f, (k - 1) as nat);
    }
}

/// The sum over distinct positions that are all below their number does not
/// depend on their order.
proof fn lemma_order_sum(order: Seq<int>, f: spec_fn(int) -> nat)
    requires
        forall|i: int| 0 <= i < order.len() ==> 0 <= (#[trigger] order[i]) < order.len(),
        forall|i: int, j: int| 0 <= i < j < order.len() ==> order[i] != order[j],
    ensures
        order_sum(order, f, order.len()) == order_sum(
            Seq::new(order.len(), |i: int| i),
            f,
            order.len(),
        ),
    decreases order.len(),
{
    let n = order.len();
    let straight = Seq::new(n, |i: int| i);
    if n > 0 {
        let j = lemma_position_of(order, n - 1);
        let rest = order.remove(j);
        lemma_order_sum_remove(order, f, j, n);
        assert forall|i: int| 0 <= i < rest.len() implies 0 <= (#[trigger] rest[i]) < rest.len() by {
            if i < j {
                assert(rest[i] == order[i]);
            } else {
                assert(rest[i] == order[i + 1]);
            }
        }
        assert forall|a: int, b: int| 0 <= a < b < rest.len() implies rest[a] != rest[b] by {
            let a0 = if a < j { a } else { a + 1 };
            let b0 = if b < j { b } else { b + 1 };
            assert(rest[a] == order[a0] && rest[b] == order[b0]);
        }
        lemma_order_sum(rest, f);
        lemma_order_sum_same(
            Seq::new((n - 1) as nat, |i: int| i),
            straight,
            f,
            (n - 1) as nat,
        );
    }
}

proof fn lemma_task_sum_straight(tasks: Seq<u32>, v: Seq<nat>, n: nat, k: nat)
    requires
        k <= n <= tasks.len(),
    ensures
        task_sum(tasks, v, k) == order_sum(
            Seq::new(n, |i: int| i),
            |i: int| v[tasks[i] as int],
            k,
        ),
    decreases k,
{
    if k > 0 {
        lemma_task_sum_straight(tasks, v, n, (k - 1) as nat);
    }
}

proof fn lemma_work_sum_ordered(tasks: Seq<u32>, order: Seq<int>, v: Seq<nat>, k: nat)
    requires
        k <= order.len(),
    ensures
        work_sum(Seq::new(k, |i: int| ResumeStep::Task(tasks[order[i]])), v) == order_sum(
            order,
            |i: int| v[tasks[i] as int],
            k,
        ),
    decreases k,
{
    if k > 0 {
        let work = Seq::new(k, |i: int| ResumeStep::Task(tasks[order[i]]));
        lemma_work_sum_ordered(tasks, order, v, (k - 1) as nat);
        assert(work.drop_last() =~= Seq::new(
            (k - 1) as nat,
            |i: int| ResumeStep::Task(tasks[order[i]]),
        ));
    }
}

/// A method's work comes to the sum over its members, in whatever order.
pub proof fn lemma_method_work_sum<M: PlanModel>(m: Method<M>, lin: nat, v: Seq<nat>)
    requires
        m.order_wf(),
        has_order(m, lin),
    ensures
        work_sum(method_work(m, lin), v) == task_sum(m.subtasks@, v, m.subtasks@.len()),
{
    match m.order {
        SubtaskOrder::Total => {
            lemma_total_sum(m, v, 0);
        },
        SubtaskOrder::Partial { preds, orders, first } => {
            lemma_partial_work(m, lin);
            let order = topo_orders(preds@)[lin as int];
            let positions = Seq::new(order.len(), |i: int| order[i] as int);
            lemma_work_sum_ordered(m.subtasks@, positions, v, positions.len());
            assert(method_work(m, lin) =~= Seq::new(
                positions.len(),
                |i: int| ResumeStep::Task(m.subtasks@[positions[i]]),
            ));
            lemma_order_sum(positions, |i: int| v[m.subtasks@[i] as int]);
            lemma_task_sum_straight(m.subtasks@, v, positions.len(), positions.len());
        },
    }
}

pub proof fn lemma_member_sum_below(m: MethodShape, v: Seq<nat>, cap: nat, k: nat)
    requires
        k <= m.members.len(),
    ensures
        member_sum(m, v, cap, k) <= task_sum(m.members, v, k),
    decreases k,
{
    if k > 0 {
        lemma_member_sum_below(m, v, cap, (k - 1) as nat);
    }
}

proof fn lemma_least_method_below(
    t: crate::summaries::TaskShape,
    v: Seq<nat>,
    cap: nat,
    k: nat,
    i: int,
)
    requires
        0 <= i < k <= t.methods.len(),
    ensures
        least_method(t, v, cap, k) <= member_sum(t.methods[i], v, cap, t.methods[i].members.len()),
    decreases k,
{
    if i < k - 1 {
        lemma_least_method_below(t, v, cap, (k - 1) as nat, i);
    }
}

/// A task's bound is at most what any of its methods' work comes to.
pub proof fn lemma_bound_carries<M: PlanModel>(
    d: HtnDomain<M>,
    t: int,
    method: nat,
    lin: nat,
    bounds: Seq<nat>,
    cap: nat,
)
    requires
        d.wf(),
        0 <= t < d.tasks@.len(),
        d.tasks@[t] is Compound,
        method < d.tasks@[t]->Compound_0.methods@.len(),
        has_order(d.tasks@[t]->Compound_0.methods@[method as int], lin),
        crate::summaries::settled(network(d), bounds, cap),
    ensures
        bounds[t] <= work_sum(
            method_work(d.tasks@[t]->Compound_0.methods@[method as int], lin),
            bounds,
        ),
{
    let net = network(d);
    let m = d.tasks@[t]->Compound_0.methods@[method as int];
    assert(d.tasks@[t].wf(d.tasks@.len(), d.slots()));
    assert(m.wf(d.tasks@.len(), d.slots()));
    assert(net[t].compound);
    assert(net[t].methods[method as int] == method_shape(m));
    lemma_least_method_below(net[t], bounds, cap, net[t].methods.len(), method as int);
    lemma_member_sum_below(method_shape(m), bounds, cap, m.subtasks@.len());
    lemma_method_work_sum(m, lin, bounds);
}

/// The yield summary is a lower bound: no run decomposes work in fewer moves
/// than the sum of its tasks' minimum yields.
pub proof fn min_yield_bounds_every_run<M: PlanModel>(
    d: HtnDomain<M>,
    s: ModelState<M>,
    work: Seq<ResumeStep>,
    moves: Seq<Move>,
    e: ModelState<M>,
)
    requires
        d.wf(),
        d.summarized(),
        known_work(d, work),
        drains(d, s, work, moves, e),
    ensures
        work_sum(work, crate::summaries::yield_bounds(d)) <= moves.len(),
    decreases moves.len(),
{
    let bounds = crate::summaries::yield_bounds(d);
    if moves.len() > 0 {
        let at = Position { state: s, work };
        let next = make_move(d, at, moves[0])->Some_0;
        lemma_work_sum_front(work, bounds);
        lemma_next_known(d, at, moves[0]);
        min_yield_bounds_every_run(d, next.state, next.work, moves.skip(1), e);
        let t = work[0]->Task_0 as int;
        match moves[0] {
            Move::Do(_) => {
                assert(summarizes(d.summaries@[t], network(d), d.slots(), t));
                let yields = yields(network(d));
                assert(bounds[t] <= least_stage(network(d), yields, usize::MAX as nat, 0)[t]);
            },
            Move::Choose { method, lin } => {
                let m = d.tasks@[t]->Compound_0.methods@[method as int];
                lemma_bound_carries(d, t, method, lin, bounds, usize::MAX as nat);
                lemma_work_sum_concat(method_work(m, lin), work.skip(1), bounds);
            },
        }
    }
}

/// A move leads from known work to known work.
pub proof fn lemma_next_known<M: PlanModel>(
    d: HtnDomain<M>,
    at: Position<M::Component>,
    mv: Move,
)
    requires
        d.wf(),
        known_work(d, at.work),
        make_move(d, at, mv) is Some,
    ensures
        known_work(d, make_move(d, at, mv)->Some_0.work),
        at.work[0] is Task,
        at.work[0]->Task_0 < d.tasks@.len(),
{
    let t = at.work[0]->Task_0 as int;
    assert(at.work[0] is Task);
    let next = make_move(d, at, mv)->Some_0;
    match mv {
        Move::Do(_) => {
            assert forall|i: int| 0 <= i < next.work.len() implies ((#[trigger] next.work[i])
                matches ResumeStep::Task(t) ==> t < d.tasks@.len()) by {
                assert(next.work[i] == at.work[i + 1]);
            }
        },
        Move::Choose { method, lin } => {
            let m = d.tasks@[t]->Compound_0.methods@[method as int];
            assert(d.tasks@[t].wf(d.tasks@.len(), d.slots()));
            assert(m.wf(d.tasks@.len(), d.slots()));
            lemma_work_members(m, lin);
            let front = method_work(m, lin);
            assert forall|i: int| 0 <= i < next.work.len() implies ((#[trigger] next.work[i])
                matches ResumeStep::Task(t) ==> t < d.tasks@.len()) by {
                if i < front.len() {
                    assert(next.work[i] == front[i]);
                    if front[i] is Task {
                        let k = choose|k: int|
                            0 <= k < m.subtasks@.len() && m.subtasks@[k] == front[i]->Task_0;
                        assert(m.subtasks@[k] < d.tasks@.len());
                    }
                } else {
                    assert(next.work[i] == at.work[i - front.len() + 1]);
                }
            }
        },
    }
}

} // verus!
