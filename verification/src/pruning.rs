//! Why the summaries and the look-ahead may be trusted: what they say holds of
//! every run.

use crate::domain::{lemma_after_len, CompoundTask, HtnDomain, Method, Task};
use crate::lookahead::{
    definitely_false, may_write, refuted, set_writes, surviving, surviving_below, sweep_from,
    sweep_start, swept, written, Sweep, SweepDepth,
};
use crate::model::{
    all_fit, apply_all, lemma_apply_all_frame, lemma_apply_all_len,
    precondition_depends_on_its_reads, some_writes, ModelState, PlanModel, Precondition,
};
use crate::order::SubtaskOrder;
use crate::planner::ResumeStep;
use crate::refinement::{
    drains, has_order, known_work, lemma_drain_split, lemma_method_work_sum, lemma_move_framed,
    lemma_next_known, lemma_partial_work, lemma_work_members, make_move, method_work, min_yield_bounds_every_run,
    task_sum, work_sum, Move, Position,
};
use crate::search::{foreseen, members_from, pin_at, sweep_end, work_of, Step, SweepTier};
use crate::summaries::{
    can_write, leads_with_read, method_reads_first, method_shape, method_summarized, must_write,
    network, read_step, reads_stage, required, rule_holds, some_member, stage, summarizes, yield_bounds, ClosureRule,
};
use vstd::prelude::*;

verus! {

proof fn lemma_leaf_writes<M: PlanModel>(d: HtnDomain<M>, f: int, t: int)
    requires
        0 <= t < d.tasks@.len(),
        !(d.tasks@[t] is Compound),
        network(d)[t].writes.contains(f),
    ensures
        can_write(network(d), f, t),
{
    let net = network(d);
    assert(stage(net, ClosureRule::SomeMethodSome, |u: int| net[u].writes.contains(f), t, 0));
}

proof fn lemma_member_writes<M: PlanModel>(d: HtnDomain<M>, f: int, t: int, method: int, k: int)
    requires
        0 <= t < d.tasks@.len(),
        d.tasks@[t] is Compound,
        0 <= method < d.tasks@[t]->Compound_0.methods@.len(),
        0 <= k < d.tasks@[t]->Compound_0.methods@[method].subtasks@.len(),
        can_write(
            network(d),
            f,
            d.tasks@[t]->Compound_0.methods@[method].subtasks@[k] as int,
        ),
    ensures
        can_write(network(d), f, t),
{
    let net = network(d);
    let rule = ClosureRule::SomeMethodSome;
    let base = |u: int| net[u].writes.contains(f);
    let u = d.tasks@[t]->Compound_0.methods@[method].subtasks@[k] as int;
    let h = choose|h: nat| stage(net, rule, base, u, h);
    assert(stage(net, rule, base, u, h));
    let below = |u: int| stage(net, rule, base, u, h);
    assert(net[t].methods[method].members[k] == u);
    assert(below(u));
    assert(some_member(net[t].methods[method], below));
    assert(rule_holds(rule, net[t], below));
    assert(stage(net, rule, base, t, h + 1));
}

/// The write summary covers every run: a slot that no task of the work may
/// write has the same value behind the work.
pub proof fn possible_writes_cover_every_run<M: PlanModel>(
    d: HtnDomain<M>,
    s: ModelState<M>,
    work: Seq<ResumeStep>,
    moves: Seq<Move>,
    e: ModelState<M>,
    f: int,
)
    requires
        d.wf(),
        d.summarized(),
        known_work(d, work),
        s.len() == d.slots(),
        drains(d, s, work, moves, e),
        0 <= f < d.slots(),
        forall|i: int|
            0 <= i < work.len() ==> ((#[trigger] work[i]) matches ResumeStep::Task(t)
                ==> !d.summaries@[t as int].possible_writes.has(f)),
    ensures
        e[f] == s[f],
        e.len() == s.len(),
    decreases moves.len(),
{
    if moves.len() > 0 {
        let at = Position { state: s, work };
        let next = make_move(d, at, moves[0])->Some_0;
        lemma_next_known(d, at, moves[0]);
        let t = work[0]->Task_0 as int;
        assert(summarizes(d.summaries@[t], network(d), d.slots(), t));
        assert(d.tasks@[t].wf(d.tasks@.len(), d.slots()));
        assert(!can_write(network(d), f, t));
        match moves[0] {
            Move::Do(_) => {
                let p = d.tasks@[t]->Primitive_0;
                if some_writes(p.effects@, f) || some_writes(p.expected_effects@, f) {
                    lemma_leaf_writes(d, f, t);
                }
                lemma_apply_all_frame(p.effects@, s, f);
                lemma_apply_all_len(p.effects@, s);
                lemma_apply_all_frame(p.expected_effects@, apply_all(p.effects@, s), f);
                lemma_apply_all_len(p.expected_effects@, apply_all(p.effects@, s));
                assert forall|i: int| 0 <= i < next.work.len() implies ((#[trigger] next.work[i])
                    matches ResumeStep::Task(u)
                    ==> !d.summaries@[u as int].possible_writes.has(f)) by {
                    assert(next.work[i] == work[i + 1]);
                }
            },
            Move::Choose { method, lin } => {
                let m = d.tasks@[t]->Compound_0.methods@[method as int];
                assert(m.wf(d.tasks@.len(), d.slots()));
                lemma_work_members(m, lin);
                let front = method_work(m, lin);
                assert forall|i: int| 0 <= i < next.work.len() implies ((#[trigger] next.work[i])
                    matches ResumeStep::Task(u)
                    ==> !d.summaries@[u as int].possible_writes.has(f)) by {
                    if i < front.len() {
                        assert(next.work[i] == front[i]);
                        if front[i] is Task {
                            let u = front[i]->Task_0;
                            let k = choose|k: int|
                                0 <= k < m.subtasks@.len() && m.subtasks@[k] == u;
                            assert(m.subtasks@[k] < d.tasks@.len());
                            assert(summarizes(
                                d.summaries@[u as int],
                                network(d),
                                d.slots(),
                                u as int,
                            ));
                            if can_write(network(d), f, u as int) {
                                lemma_member_writes(d, f, t, method as int, k);
                            }
                        }
                    } else {
                        assert(next.work[i] == work[i - front.len() + 1]);
                    }
                }
            },
        }
        possible_writes_cover_every_run(d, next.state, next.work, moves.skip(1), e, f);
    }
}

/// A run keeps the number of slots.
pub proof fn lemma_run_len<M: PlanModel>(
    d: HtnDomain<M>,
    s: ModelState<M>,
    work: Seq<ResumeStep>,
    moves: Seq<Move>,
    e: ModelState<M>,
)
    requires
        d.wf(),
        known_work(d, work),
        s.len() == d.slots(),
        drains(d, s, work, moves, e),
    ensures
        e.len() == s.len(),
    decreases moves.len(),
{
    if moves.len() > 0 {
        let at = Position { state: s, work };
        let next = make_move(d, at, moves[0])->Some_0;
        lemma_next_known(d, at, moves[0]);
        let t = work[0]->Task_0 as int;
        assert(d.tasks@[t].wf(d.tasks@.len(), d.slots()));
        if moves[0] is Do {
            lemma_after_len(d.tasks@[t]->Primitive_0, s);
        }
        lemma_run_len(d, next.state, next.work, moves.skip(1), e);
    }
}

/// The part of a run that decomposes the entry at index `i` of the work, and
/// where it starts.
pub proof fn lemma_drain_at<M: PlanModel>(
    d: HtnDomain<M>,
    s: ModelState<M>,
    work: Seq<ResumeStep>,
    moves: Seq<Move>,
    e: ModelState<M>,
    i: int,
) -> (r: (nat, ModelState<M>, nat, ModelState<M>))
    requires
        drains(d, s, work, moves, e),
        0 <= i < work.len(),
    ensures
        r.0 + r.2 <= moves.len(),
        drains(d, s, work.take(i), moves.take(r.0 as int), r.1),
        drains(d, r.1, seq![work[i]], moves.subrange(r.0 as int, (r.0 + r.2) as int), r.3),
{
    let front = work.take(i);
    let one = seq![work[i]];
    let rest = work.skip(i + 1);
    assert(work =~= front + (one + rest));
    let (n, mid) = lemma_drain_split(d, s, front, one + rest, moves, e);
    let (n2, mid2) = lemma_drain_split(d, mid, one, rest, moves.skip(n as int), e);
    assert(moves.skip(n as int).take(n2 as int) =~= moves.subrange(n as int, (n + n2) as int));
    (n, mid, n2, mid2)
}

/// Whether a run runs a primitive whose effects write slot `f`.
pub open spec fn writes_surely<M: PlanModel>(d: HtnDomain<M>, moves: Seq<Move>, f: int) -> bool {
    exists|i: int|
        0 <= i < moves.len() && ((#[trigger] moves[i]) matches Move::Do(u)
            && network(d)[u as int].sure_writes.contains(f))
}

proof fn lemma_sure_stage<M: PlanModel>(
    d: HtnDomain<M>,
    s: ModelState<M>,
    t: int,
    moves: Seq<Move>,
    e: ModelState<M>,
    f: int,
    h: nat,
)
    requires
        d.wf(),
        0 <= t < d.tasks@.len(),
        drains(d, s, seq![ResumeStep::Task(t as u32)], moves, e),
        stage(
            network(d),
            ClosureRule::EveryMethodSome,
            |u: int| network(d)[u].sure_writes.contains(f),
            t,
            h,
        ),
    ensures
        writes_surely(d, moves, f),
    decreases h,
{
    let net = network(d);
    let rule = ClosureRule::EveryMethodSome;
    let base = |u: int| network(d)[u].sure_writes.contains(f);
    let work = seq![ResumeStep::Task(t as u32)];
    assert(work.len() > 0);
    assert(moves.len() > 0);
    let at = Position { state: s, work };
    let next = make_move(d, at, moves[0])->Some_0;
    if !net[t].compound {
        assert(base(t));
        assert(moves[0] == Move::Do(t as usize));
        assert(net[(t as usize) as int].sure_writes.contains(f));
    } else {
        let below = |u: int| stage(net, rule, base, u, (h - 1) as nat);
        assert(h > 0);
        assert(rule_holds(rule, net[t], below));
        let method = moves[0]->method as int;
        let lin = moves[0]->lin;
        let m = d.tasks@[t]->Compound_0.methods@[method];
        assert(d.tasks@[t].wf(d.tasks@.len(), d.slots()));
        assert(m.wf(d.tasks@.len(), d.slots()));
        assert(net[t].methods[method] == method_shape(m));
        assert(some_member(net[t].methods[method], below));
        let k = choose|k: int|
            0 <= k < m.subtasks@.len() && below(
                #[trigger] net[t].methods[method].members[k] as int,
            );
        let u = m.subtasks@[k];
        assert(below(u as int));
        lemma_work_members(m, lin);
        assert(next.work =~= method_work(m, lin));
        let i = next.work.index_of(ResumeStep::Task(u));
        let (n, mid, n2, mid2) = lemma_drain_at(d, next.state, next.work, moves.skip(1), e, i);
        let part = moves.skip(1).subrange(n as int, (n + n2) as int);
        assert(seq![next.work[i]] =~= seq![ResumeStep::Task(u)]);
        lemma_sure_stage(d, mid, u as int, part, mid2, f, (h - 1) as nat);
        let j = choose|j: int|
            0 <= j < part.len() && ((#[trigger] part[j]) matches Move::Do(v)
                && network(d)[v as int].sure_writes.contains(f));
        assert(moves[j + n + 1] == part[j]);
    }
}

/// The guaranteed-write summary holds of every run: decomposing a task runs a
/// primitive whose own effects write each slot that the summary guarantees.
pub proof fn guaranteed_writes_happen_in_every_run<M: PlanModel>(
    d: HtnDomain<M>,
    s: ModelState<M>,
    t: u32,
    moves: Seq<Move>,
    e: ModelState<M>,
    f: int,
)
    requires
        d.wf(),
        d.summarized(),
        t < d.tasks@.len(),
        drains(d, s, seq![ResumeStep::Task(t)], moves, e),
        d.summaries@[t as int].guaranteed_writes.has(f),
    ensures
        writes_surely(d, moves, f),
{
    let net = network(d);
    assert(summarizes(d.summaries@[t as int], net, d.slots(), t as int));
    assert(must_write(net, f, t as int));
    let base = |u: int| net[u].sure_writes.contains(f);
    let h = choose|h: nat| stage(net, ClosureRule::EveryMethodSome, base, t as int, h);
    assert(stage(net, ClosureRule::EveryMethodSome, base, t as int, h));
    lemma_sure_stage(d, s, t as int, moves, e, f, h);
}

/// Whether a run reads slot `f` before it writes it: the first move that touches
/// the slot is a primitive task whose preconditions read it, or the choice of a
/// method whose preconditions do.
pub open spec fn reads_before_writes<M: PlanModel>(
    d: HtnDomain<M>,
    at: Position<M::Component>,
    moves: Seq<Move>,
    f: int,
) -> bool
    decreases moves.len(),
{
    if moves.len() == 0 || at.work.len() == 0 {
        false
    } else {
        match (at.work[0], moves[0], make_move(d, at, moves[0])) {
            (ResumeStep::Task(t), Move::Do(_), Some(next)) => {
                ||| network(d)[t as int].reads.contains(f)
                ||| !network(d)[t as int].writes.contains(f) && reads_before_writes(
                    d,
                    next,
                    moves.skip(1),
                    f,
                )
            },
            (ResumeStep::Task(t), Move::Choose { method, .. }, Some(next)) => {
                ||| network(d)[t as int].methods[method as int].reads.contains(f)
                ||| reads_before_writes(d, next, moves.skip(1), f)
            },
            _ => false,
        }
    }
}

/// A run of `a` that reads first still does with more work behind it.
proof fn lemma_reads_in_front<M: PlanModel>(
    d: HtnDomain<M>,
    s: ModelState<M>,
    a: Seq<ResumeStep>,
    b: Seq<ResumeStep>,
    x: Seq<Move>,
    y: Seq<Move>,
    f: int,
)
    requires
        reads_before_writes(d, Position { state: s, work: a }, x, f),
    ensures
        reads_before_writes(d, Position { state: s, work: a + b }, x + y, f),
    decreases x.len(),
{
    let at = Position { state: s, work: a };
    lemma_move_framed(d, at, b, x[0]);
    assert((x + y)[0] == x[0]);
    assert((x + y).skip(1) =~= x.skip(1) + y);
    assert((a + b)[0] == a[0]);
    let next = make_move(d, at, x[0])->Some_0;
    if reads_before_writes(d, next, x.skip(1), f) {
        lemma_reads_in_front(d, next.state, next.work, b, x.skip(1), y, f);
    }
}

/// What a method's work holds cannot write a slot that its task cannot write.
proof fn lemma_members_spare<M: PlanModel>(
    d: HtnDomain<M>,
    t: int,
    method: int,
    lin: nat,
    f: int,
)
    requires
        d.wf(),
        0 <= t < d.tasks@.len(),
        d.tasks@[t] is Compound,
        0 <= method < d.tasks@[t]->Compound_0.methods@.len(),
        has_order(d.tasks@[t]->Compound_0.methods@[method], lin),
        !can_write(network(d), f, t),
    ensures
        spares(d, method_work(d.tasks@[t]->Compound_0.methods@[method], lin), f),
{
    let m = d.tasks@[t]->Compound_0.methods@[method];
    assert(d.tasks@[t].wf(d.tasks@.len(), d.slots()));
    assert(m.wf(d.tasks@.len(), d.slots()));
    lemma_work_members(m, lin);
    let work = method_work(m, lin);
    assert forall|i: int| 0 <= i < work.len() implies ((#[trigger] work[i])
        matches ResumeStep::Task(u) ==> u < d.tasks@.len() && !can_write(
        network(d),
        f,
        u as int,
    )) by {
        if work[i] is Task {
            let u = work[i]->Task_0;
            let k = choose|k: int| 0 <= k < m.subtasks@.len() && m.subtasks@[k] == u;
            assert(m.subtasks@[k] < d.tasks@.len());
            if can_write(network(d), f, u as int) {
                lemma_member_writes(d, f, t, method, k);
            }
        }
    }
}

/// Whether no task of the work can write slot `f`.
spec fn spares<M: PlanModel>(d: HtnDomain<M>, work: Seq<ResumeStep>, f: int) -> bool {
    forall|i: int|
        0 <= i < work.len() ==> ((#[trigger] work[i]) matches ResumeStep::Task(t) ==> t
            < d.tasks@.len() && !can_write(network(d), f, t as int))
}

/// A run reads first where a part that cannot write the slot comes before a part
/// that reads first.
proof fn lemma_reads_behind<M: PlanModel>(
    d: HtnDomain<M>,
    s: ModelState<M>,
    a: Seq<ResumeStep>,
    b: Seq<ResumeStep>,
    x: Seq<Move>,
    mid: ModelState<M>,
    y: Seq<Move>,
    f: int,
)
    requires
        d.wf(),
        spares(d, a, f),
        drains(d, s, a, x, mid),
        reads_before_writes(d, Position { state: mid, work: b }, y, f),
    ensures
        reads_before_writes(d, Position { state: s, work: a + b }, x + y, f),
    decreases x.len(),
{
    if x.len() == 0 {
        assert(a + b =~= b);
        assert(x + y =~= y);
    } else {
        let at = Position { state: s, work: a };
        lemma_move_framed(d, at, b, x[0]);
        assert((x + y)[0] == x[0]);
        assert((x + y).skip(1) =~= x.skip(1) + y);
        assert((a + b)[0] == a[0]);
        let next = make_move(d, at, x[0])->Some_0;
        let t = a[0]->Task_0 as int;
        assert(!can_write(network(d), f, t));
        match x[0] {
            Move::Do(_) => {
                if network(d)[t].writes.contains(f) {
                    lemma_leaf_writes(d, f, t);
                }
                assert forall|i: int| 0 <= i < next.work.len() implies ((#[trigger] next.work[i])
                    matches ResumeStep::Task(u) ==> u < d.tasks@.len() && !can_write(
                    network(d),
                    f,
                    u as int,
                )) by {
                    assert(next.work[i] == a[i + 1]);
                }
            },
            Move::Choose { method, lin } => {
                lemma_members_spare(d, t, method as int, lin, f);
                let front = method_work(d.tasks@[t]->Compound_0.methods@[method as int], lin);
                assert forall|i: int| 0 <= i < next.work.len() implies ((#[trigger] next.work[i])
                    matches ResumeStep::Task(u) ==> u < d.tasks@.len() && !can_write(
                    network(d),
                    f,
                    u as int,
                )) by {
                    if i < front.len() {
                        assert(next.work[i] == front[i]);
                    } else {
                        assert(next.work[i] == a[i - front.len() + 1]);
                    }
                }
            },
        }
        lemma_reads_behind(d, next.state, next.work, b, x.skip(1), mid, y, f);
    }
}

proof fn lemma_reads_stage<M: PlanModel>(
    d: HtnDomain<M>,
    s: ModelState<M>,
    t: u32,
    moves: Seq<Move>,
    e: ModelState<M>,
    f: int,
    h: nat,
)
    requires
        d.wf(),
        t < d.tasks@.len(),
        drains(d, s, seq![ResumeStep::Task(t)], moves, e),
        reads_stage(network(d), f, h)[t as int],
        moves.len() <= h,
    ensures
        reads_before_writes(
            d,
            Position { state: s, work: seq![ResumeStep::Task(t)] },
            moves,
            f,
        ),
    decreases h, 1nat, 0nat,
{
    let net = network(d);
    let work = seq![ResumeStep::Task(t)];
    let at = Position { state: s, work };
    assert(work.len() > 0);
    assert(moves.len() > 0);
    let next = make_move(d, at, moves[0])->Some_0;
    if let Move::Choose { method, lin } = moves[0] {
        let c = d.tasks@[t as int]->Compound_0;
        let m = c.methods@[method as int];
        let shape = net[t as int].methods[method as int];
        let below = reads_stage(net, f, (h - 1) as nat);
        assert(d.tasks@[t as int].wf(d.tasks@.len(), d.slots()));
        assert(m.wf(d.tasks@.len(), d.slots()));
        assert(shape == method_shape(m));
        assert(read_step(net, f, t as int, below));
        assert(method_reads_first(net, f, shape, below));
        assert(next.work =~= method_work(m, lin));
        if !shape.reads.contains(f) {
            match m.order {
                SubtaskOrder::Total => {
                    lemma_total_reads(d, m, next.state, 0, moves.skip(1), e, f, (h - 1) as nat);
                },
                SubtaskOrder::Partial { .. } => {
                    let k = choose|k: int|
                        0 <= k < shape.members.len() && below[#[trigger] shape.members[k] as int];
                    let u = m.subtasks@[k];
                    lemma_work_members(m, lin);
                    let i = next.work.index_of(ResumeStep::Task(u));
                    let front = next.work.take(i);
                    let one = seq![next.work[i]];
                    let rest = next.work.skip(i + 1);
                    assert(next.work =~= front + (one + rest));
                    let run = moves.skip(1);
                    let (n, mid) = lemma_drain_split(d, next.state, front, one + rest, run, e);
                    let tail = run.skip(n as int);
                    let (n2, mid2) = lemma_drain_split(d, mid, one, rest, tail, e);
                    assert(one =~= seq![ResumeStep::Task(u)]);
                    lemma_reads_stage(d, mid, u, tail.take(n2 as int), mid2, f, (h - 1) as nat);
                    lemma_reads_in_front(
                        d,
                        mid,
                        one,
                        rest,
                        tail.take(n2 as int),
                        tail.skip(n2 as int),
                        f,
                    );
                    assert(tail.take(n2 as int) + tail.skip(n2 as int) =~= tail);
                    assert(spares(d, front, f)) by {
                        assert forall|j: int| 0 <= j < front.len() implies ((#[trigger] front[j])
                            matches ResumeStep::Task(v) ==> v < d.tasks@.len() && !can_write(
                            net,
                            f,
                            v as int,
                        )) by {
                            assert(front[j] == next.work[j]);
                            if front[j] is Task {
                                let v = front[j]->Task_0;
                                let q = choose|q: int|
                                    0 <= q < m.subtasks@.len() && m.subtasks@[q] == v;
                                assert(m.subtasks@[q] < d.tasks@.len());
                                assert(!can_write(net, f, shape.members[q] as int));
                            }
                        }
                    }
                    lemma_reads_behind(
                        d,
                        next.state,
                        front,
                        one + rest,
                        run.take(n as int),
                        mid,
                        tail,
                        f,
                    );
                    assert(run.take(n as int) + tail =~= run);
                },
            }
        }
    }
}

/// The members of a totally-ordered method, from position `pos` on.
proof fn lemma_total_reads<M: PlanModel>(
    d: HtnDomain<M>,
    m: Method<M>,
    s: ModelState<M>,
    pos: nat,
    moves: Seq<Move>,
    e: ModelState<M>,
    f: int,
    h: nat,
)
    requires
        d.wf(),
        m.wf(d.tasks@.len(), d.slots()),
        drains(d, s, work_of(members_from(m, Seq::empty(), pos)), moves, e),
        leads_with_read(network(d), f, method_shape(m), reads_stage(network(d), f, h), pos),
        moves.len() <= h,
    ensures
        reads_before_writes(
            d,
            Position { state: s, work: work_of(members_from(m, Seq::empty(), pos)) },
            moves,
            f,
        ),
    decreases h, 2nat, m.subtasks@.len() - pos,
{
    let queue = members_from(m, Seq::empty(), pos);
    let work = work_of(queue);
    let u = m.subtasks@[pos as int];
    let rest_queue = members_from(m, Seq::empty(), pos + 1);
    let rest = work_of(rest_queue);
    assert(method_shape(m).members[pos as int] == u);
    assert(u < d.tasks@.len());
    if m.pause_positions@.contains(pos as u32) {
        assert(queue[0] == Step::Pause);
        assert(work[0] == ResumeStep::Pause);
        assert(moves.len() > 0);
        assert(make_move(d, Position { state: s, work }, moves[0]) is None);
    }
    let one = seq![ResumeStep::Task(u)];
    assert(queue =~= seq![Step::Task(u as usize, pin_at(Seq::empty(), pos as int, 0))]
        + rest_queue);
    assert(work =~= one + rest);
    let (n, mid) = lemma_drain_split(d, s, one, rest, moves, e);
    let x = moves.take(n as int);
    let y = moves.skip(n as int);
    assert(x + y =~= moves);
    if reads_stage(network(d), f, h)[u as int] {
        lemma_reads_stage(d, s, u, x, mid, f, h);
        lemma_reads_in_front(d, s, one, rest, x, y, f);
    } else {
        lemma_total_reads(d, m, mid, pos + 1, y, e, f, h);
        assert(spares(d, one, f));
        lemma_reads_behind(d, s, one, rest, x, mid, y, f);
    }
}

/// The required-slot summary holds of every run: decomposing a task reads each
/// slot that the summary requires, before anything writes it.
pub proof fn required_slots_are_read_first<M: PlanModel>(
    d: HtnDomain<M>,
    s: ModelState<M>,
    t: u32,
    moves: Seq<Move>,
    e: ModelState<M>,
    f: int,
)
    requires
        d.wf(),
        d.summarized(),
        t < d.tasks@.len(),
        drains(d, s, seq![ResumeStep::Task(t)], moves, e),
        d.summaries@[t as int].required_fields.has(f),
    ensures
        reads_before_writes(
            d,
            Position { state: s, work: seq![ResumeStep::Task(t)] },
            moves,
            f,
        ),
{
    let net = network(d);
    assert(summarizes(d.summaries@[t as int], net, d.slots(), t as int));
    assert(required(net, f, t as int));
    assert(reads_stage(net, f, moves.len())[t as int]);
    lemma_reads_stage(d, s, t, moves, e, f, moves.len());
}

/// The termination summary is right of every run: no run decomposes a task
/// without a finite refinement.
pub proof fn decomposed_tasks_terminate<M: PlanModel>(
    d: HtnDomain<M>,
    s: ModelState<M>,
    t: u32,
    moves: Seq<Move>,
    e: ModelState<M>,
)
    requires
        d.wf(),
        d.summarized(),
        t < d.tasks@.len(),
        drains(d, s, seq![ResumeStep::Task(t)], moves, e),
    ensures
        d.summaries@[t as int].terminating,
{
    let net = network(d);
    assert(summarizes(d.summaries@[t as int], net, d.slots(), t as int));
    lemma_run_terminates(d, s, seq![ResumeStep::Task(t)], moves, e);
    assert(seq![ResumeStep::Task(t)][0] == ResumeStep::Task(t));
}

/// Every task of work that a run decomposes has a finite refinement.
proof fn lemma_run_terminates<M: PlanModel>(
    d: HtnDomain<M>,
    s: ModelState<M>,
    work: Seq<ResumeStep>,
    moves: Seq<Move>,
    e: ModelState<M>,
)
    requires
        d.wf(),
        known_work(d, work),
        drains(d, s, work, moves, e),
    ensures
        forall|i: int|
            0 <= i < work.len() ==> ((#[trigger] work[i]) matches ResumeStep::Task(t)
                && crate::summaries::terminates(network(d), t as int)),
    decreases moves.len(),
{
    if moves.len() > 0 {
        let net = network(d);
        let rule = ClosureRule::SomeMethodAll;
        let base = |u: int| true;
        let at = Position { state: s, work };
        let next = make_move(d, at, moves[0])->Some_0;
        lemma_next_known(d, at, moves[0]);
        lemma_run_terminates(d, next.state, next.work, moves.skip(1), e);
        let t = work[0]->Task_0 as int;
        assert(d.tasks@[t].wf(d.tasks@.len(), d.slots()));
        match moves[0] {
            Move::Do(_) => {
                assert(stage(net, rule, base, t, 0));
                assert forall|i: int| 0 <= i < work.len() implies ((#[trigger] work[i])
                    matches ResumeStep::Task(t) && crate::summaries::terminates(
                    net,
                    t as int,
                )) by {
                    if i > 0 {
                        assert(next.work[i - 1] == work[i]);
                    }
                }
            },
            Move::Choose { method, lin } => {
                let m = d.tasks@[t]->Compound_0.methods@[method as int];
                assert(m.wf(d.tasks@.len(), d.slots()));
                lemma_work_members(m, lin);
                let front = method_work(m, lin);
                assert forall|k: int| 0 <= k < m.subtasks@.len() implies crate::summaries::terminates(
                    net,
                    #[trigger] m.subtasks@[k] as int,
                ) by {
                    let i = front.index_of(ResumeStep::Task(m.subtasks@[k]));
                    assert(front.contains(ResumeStep::Task(m.subtasks@[k])));
                    assert(next.work[i] == front[i]);
                }
                let h = lemma_common_stage(d, m, m.subtasks@.len());
                let below = |u: int| stage(net, rule, base, u, h);
                assert(net[t].methods[method as int] == method_shape(m));
                assert forall|k: int| 0 <= k < net[t].methods[method as int].members.len() implies below(
                    #[trigger] net[t].methods[method as int].members[k] as int,
                ) by {
                    assert(stage(net, rule, base, m.subtasks@[k] as int, h));
                }
                assert(rule_holds(rule, net[t], below));
                assert(stage(net, rule, base, t, h + 1));
                assert forall|i: int| 0 <= i < work.len() implies ((#[trigger] work[i])
                    matches ResumeStep::Task(t) && crate::summaries::terminates(
                    net,
                    t as int,
                )) by {
                    if i > 0 {
                        assert(next.work[front.len() + i - 1] == work[i]);
                    }
                }
            },
        }
    }
}

/// One depth at which the first `n` members of a method all have a refinement.
proof fn lemma_common_stage<M: PlanModel>(d: HtnDomain<M>, m: Method<M>, n: nat) -> (h: nat)
    requires
        n <= m.subtasks@.len(),
        forall|k: int|
            0 <= k < m.subtasks@.len() ==> crate::summaries::terminates(
                network(d),
                #[trigger] m.subtasks@[k] as int,
            ),
    ensures
        forall|k: int|
            0 <= k < n ==> stage(
                network(d),
                ClosureRule::SomeMethodAll,
                |u: int| true,
                #[trigger] m.subtasks@[k] as int,
                h,
            ),
    decreases n,
{
    let net = network(d);
    let rule = ClosureRule::SomeMethodAll;
    let base = |u: int| true;
    if n == 0 {
        0
    } else {
        let a = lemma_common_stage(d, m, (n - 1) as nat);
        let u = m.subtasks@[n - 1] as int;
        assert(crate::summaries::terminates(net, u));
        let b = choose|b: nat| stage(net, rule, base, u, b);
        assert(stage(net, rule, base, u, b));
        let h = if a < b {
            b
        } else {
            a
        };
        assert forall|k: int| 0 <= k < n implies stage(
            net,
            rule,
            base,
            #[trigger] m.subtasks@[k] as int,
            h,
        ) by {
            if k < n - 1 {
                lemma_stage_grows(net, m.subtasks@[k] as int, a, h);
            } else {
                lemma_stage_grows(net, u, b, h);
            }
        }
        h
    }
}

proof fn lemma_stage_grows(net: crate::summaries::Network, t: int, a: nat, b: nat)
    requires
        a <= b,
        stage(net, ClosureRule::SomeMethodAll, |u: int| true, t, a),
    ensures
        stage(net, ClosureRule::SomeMethodAll, |u: int| true, t, b),
    decreases b,
{
    let rule = ClosureRule::SomeMethodAll;
    let base = |u: int| true;
    if net[t].compound && a < b {
        let below = |u: int| stage(net, rule, base, u, (a - 1) as nat);
        let above = |u: int| stage(net, rule, base, u, (b - 1) as nat);
        let i = choose|i: int|
            0 <= i < net[t].methods.len() && crate::summaries::all_members(
                #[trigger] net[t].methods[i],
                below,
            );
        let m = net[t].methods[i];
        assert forall|k: int| 0 <= k < m.members.len() implies above(
            #[trigger] m.members[k] as int,
        ) by {
            assert(below(m.members[k] as int));
            lemma_stage_grows(net, m.members[k] as int, (a - 1) as nat, (b - 1) as nat);
        }
        assert(crate::summaries::all_members(net[t].methods[i], above));
        assert(rule_holds(rule, net[t], above));
    }
}

/// Whether two states agree on every slot that is not unknown.
pub open spec fn agree<M: PlanModel>(
    a: ModelState<M>,
    b: ModelState<M>,
    unknown: Set<int>,
) -> bool {
    &&& a.len() == b.len()
    &&& forall|f: int| 0 <= f < a.len() && !unknown.contains(f) ==> #[trigger] a[f] == b[f]
}

/// What is refuted under an optimistic state does not hold in any state that
/// agrees with it.
proof fn lemma_refuted<M: PlanModel>(
    ps: Seq<Precondition<M>>,
    e: ModelState<M>,
    s: ModelState<M>,
    unknown: Set<int>,
)
    requires
        all_fit(ps, s.len()),
        agree::<M>(e, s, unknown),
        refuted(ps, s, unknown),
    ensures
        !crate::model::all_hold(ps, e),
{
    let i = choose|i: int| 0 <= i < ps.len() && definitely_false(#[trigger] ps[i], s, unknown);
    let p = ps[i];
    assert(p.wf(s.len()));
    assert forall|j: int| 0 <= j < p.reads@.len() implies e[#[trigger] p.reads@[j] as int]
        == s[p.reads@[j] as int] by {
        assert(!unknown.contains(p.reads@[j] as int));
        assert(p.reads@[j] < s.len());
    }
    precondition_depends_on_its_reads(p, e, s);
}

proof fn lemma_survivors<M: PlanModel>(
    c: CompoundTask<M>,
    s: ModelState<M>,
    unknown: Set<int>,
    k: nat,
)
    requires
        k <= c.methods@.len() <= usize::MAX,
    ensures
        forall|i: int|
            0 <= i < surviving_below(c, s, unknown, k).len() ==> (#[trigger] surviving_below(
                c,
                s,
                unknown,
                k,
            )[i]) < k,
        forall|j: int|
            0 <= j < k && !refuted((#[trigger] c.methods@[j]).preconditions@, s, unknown)
                ==> surviving_below(c, s, unknown, k).contains(j as usize),
    decreases k,
{
    if k > 0 {
        lemma_survivors(c, s, unknown, (k - 1) as nat);
        let before = surviving_below(c, s, unknown, (k - 1) as nat);
        let all = surviving_below(c, s, unknown, k);
        assert forall|j: int|
            0 <= j < k && !refuted((#[trigger] c.methods@[j]).preconditions@, s, unknown) implies all.contains(
            j as usize,
        ) by {
            if j < k - 1 {
                let i = before.index_of(j as usize);
                assert(before.contains(j as usize));
                assert(all[i] == j as usize);
            } else {
                assert(all[all.len() - 1] == j as usize);
            }
        }
    }
}

/// The work that a list of tasks comes to.
pub open spec fn tasks_work(tasks: Seq<u32>) -> Seq<ResumeStep> {
    Seq::new(tasks.len(), |i: int| ResumeStep::Task(tasks[i]))
}

/// Whether a list holds tasks of the domain.
pub open spec fn known_tasks<M: PlanModel>(d: HtnDomain<M>, tasks: Seq<u32>) -> bool {
    forall|i: int| 0 <= i < tasks.len() ==> (#[trigger] tasks[i]) < d.tasks@.len()
}

/// What a run of one task in front of others tells: the part that decomposes
/// the task, and how many moves that takes.
proof fn lemma_first_task<M: PlanModel>(
    d: HtnDomain<M>,
    e: ModelState<M>,
    tasks: Seq<u32>,
    moves: Seq<Move>,
    e2: ModelState<M>,
) -> (r: (nat, ModelState<M>))
    requires
        d.wf(),
        d.summarized(),
        tasks.len() > 0,
        known_tasks(d, tasks),
        e.len() == d.slots(),
        drains(d, e, tasks_work(tasks), moves, e2),
    ensures
        r.0 <= moves.len(),
        drains(d, e, seq![ResumeStep::Task(tasks[0])], moves.take(r.0 as int), r.1),
        drains(d, r.1, tasks_work(tasks.skip(1)), moves.skip(r.0 as int), e2),
        r.1.len() == d.slots(),
        d.summaries@[tasks[0] as int].min_yield <= r.0,
        r.0 > 0,
        make_move(
            d,
            Position { state: e, work: seq![ResumeStep::Task(tasks[0])] },
            moves[0],
        ) is Some,
        d.tasks@[tasks[0] as int] is Primitive ==> r.1
            == d.tasks@[tasks[0] as int]->Primitive_0.after(e),
{
    let one = seq![ResumeStep::Task(tasks[0])];
    let rest = tasks_work(tasks.skip(1));
    assert(tasks_work(tasks) =~= one + rest);
    let (n, mid) = lemma_drain_split(d, e, one, rest, moves, e2);
    let part = moves.take(n as int);
    assert(one.len() > 0);
    assert(part.len() > 0);
    assert(part[0] == moves[0]);
    lemma_run_len(d, e, one, part, mid);
    min_yield_bounds_every_run(d, e, one, part, mid);
    assert(one.drop_last() =~= Seq::<ResumeStep>::empty());
    assert(work_sum(one.drop_last(), yield_bounds(d)) == 0);
    assert(work_sum(one, yield_bounds(d)) == d.summaries@[tasks[0] as int].min_yield);
    let next = make_move(d, Position { state: e, work: one }, moves[0])->Some_0;
    if d.tasks@[tasks[0] as int] is Primitive {
        assert(next.work =~= Seq::<ResumeStep>::empty());
        if part.skip(1).len() > 0 {
            assert(crate::refinement::play(d, next, part.skip(1)) is None);
        }
    }
    (n, mid)
}

/// What one task's run may change: nothing but what the methods that can
/// possibly apply may write.
proof fn lemma_compound_frame<M: PlanModel>(
    d: HtnDomain<M>,
    e: ModelState<M>,
    t: u32,
    moves: Seq<Move>,
    mid: ModelState<M>,
    s: ModelState<M>,
    unknown: Set<int>,
)
    requires
        d.wf(),
        d.summarized(),
        t < d.tasks@.len(),
        d.tasks@[t as int] is Compound,
        e.len() == d.slots(),
        agree::<M>(e, s, unknown),
        drains(d, e, seq![ResumeStep::Task(t)], moves, mid),
    ensures
        surviving(d.tasks@[t as int]->Compound_0, s, unknown).len() > 0,
        agree::<M>(
            mid,
            s,
            unknown.union(
                may_write(
                    d.tasks@[t as int]->Compound_0,
                    surviving(d.tasks@[t as int]->Compound_0, s, unknown),
                ),
            ),
        ),
{
    let c = d.tasks@[t as int]->Compound_0;
    let work = seq![ResumeStep::Task(t)];
    assert(work.len() > 0);
    assert(moves.len() > 0);
    let next = make_move(d, Position { state: e, work }, moves[0])->Some_0;
    let method = moves[0]->method as int;
    let lin = moves[0]->lin;
    let m = c.methods@[method];
    assert(d.tasks@[t as int].wf(d.tasks@.len(), d.slots()));
    assert(m.wf(d.tasks@.len(), d.slots()));
    if refuted(m.preconditions@, s, unknown) {
        lemma_refuted(m.preconditions@, e, s, unknown);
    }
    let survivors = surviving(c, s, unknown);
    lemma_survivors(c, s, unknown, c.methods@.len());
    assert(survivors.contains(method as usize));
    let at = survivors.index_of(method as usize);
    assert(survivors[at] == method);
    lemma_run_len(d, e, work, moves, mid);
    lemma_work_members(m, lin);
    assert(next.work =~= method_work(m, lin));
    assert(method_summarized(m, network(d), d.slots(), crate::summaries::cost_bounds(d)));
    lemma_next_known(d, Position { state: e, work }, moves[0]);
    let grown = unknown.union(may_write(c, survivors));
    assert forall|f: int| 0 <= f < mid.len() && !grown.contains(f) implies #[trigger] mid[f]
        == s[f] by {
        assert(!c.methods@[survivors[at] as int].possible_writes.has(f));
        assert forall|i: int| 0 <= i < next.work.len() implies ((#[trigger] next.work[i])
            matches ResumeStep::Task(u) ==> !d.summaries@[u as int].possible_writes.has(f)) by {
            if next.work[i] is Task {
                let u = next.work[i]->Task_0;
                let k = choose|k: int| 0 <= k < m.subtasks@.len() && m.subtasks@[k] == u;
                assert(summarizes(d.summaries@[u as int], network(d), d.slots(), u as int));
                if can_write(network(d), f, u as int) {
                    let net = network(d);
                    let v = |u: int| can_write(net, f, u);
                    assert(v(method_shape(m).members[k] as int));
                    assert(some_member(method_shape(m), v));
                    assert(some_member(method_shape(m), |u: int| can_write(net, f, u)));
                }
            }
        }
        possible_writes_cover_every_run(d, e, next.work, moves.skip(1), mid, f);
        assert(e[f] == s[f]);
    }
}

/// A primitive's run changes nothing but what it writes.
proof fn lemma_primitive_frame<M: PlanModel>(
    d: HtnDomain<M>,
    e: ModelState<M>,
    t: u32,
    s: ModelState<M>,
    unknown: Set<int>,
)
    requires
        d.wf(),
        t < d.tasks@.len(),
        d.tasks@[t as int] is Primitive,
        e.len() == d.slots(),
        agree::<M>(e, s, unknown),
    ensures
        ({
            let p = d.tasks@[t as int]->Primitive_0;
            agree::<M>(p.after(e), p.after(s), unknown.union(written(p)))
        }),
{
    let p = d.tasks@[t as int]->Primitive_0;
    assert(d.tasks@[t as int].wf(d.tasks@.len(), d.slots()));
    lemma_apply_all_len(p.effects@, e);
    lemma_apply_all_len(p.expected_effects@, apply_all(p.effects@, e));
    lemma_apply_all_len(p.effects@, s);
    lemma_apply_all_len(p.expected_effects@, apply_all(p.effects@, s));
    let grown = unknown.union(written(p));
    assert forall|f: int| 0 <= f < e.len() && !grown.contains(f) implies #[trigger] p.after(e)[f]
        == p.after(s)[f] by {
        lemma_apply_all_frame(p.effects@, e, f);
        lemma_apply_all_frame(p.expected_effects@, apply_all(p.effects@, e), f);
        lemma_apply_all_frame(p.effects@, s, f);
        lemma_apply_all_frame(p.expected_effects@, apply_all(p.effects@, s), f);
        assert(e[f] == s[f]);
    }
}

/// Whether what a sweep knows at position `k` is right of a run that stands
/// there in state `e` after `spent` moves.
spec fn knows<M: PlanModel>(
    d: HtnDomain<M>,
    sw: Sweep<M::Component>,
    e: ModelState<M>,
    spent: nat,
    depth: SweepDepth,
) -> bool {
    &&& e.len() == d.slots()
    &&& sw.state.len() == d.slots()
    &&& sw.blind || agree::<M>(e, sw.state, sw.unknown)
    &&& depth is Full ==> !sw.blind
    &&& sw.steps <= spent
}

/// What a sweep knows behind the first task of the rest.
spec fn sweep_next<M: PlanModel>(
    d: HtnDomain<M>,
    seq: Seq<u32>,
    k: nat,
    sw: Sweep<M::Component>,
    depth: SweepDepth,
) -> Sweep<M::Component> {
    let t = seq[k as int] as int;
    let steps = crate::lookahead::capped_sum(sw.steps, d.summaries@[t].min_yield as nat);
    match d.tasks@[t] {
        Task::Primitive(p) => Sweep {
            state: p.after(sw.state),
            unknown: sw.unknown.union(written(p)),
            steps,
            ..sw
        },
        Task::Compound(c) => if depth is RefutationOnly {
            Sweep { steps, blind: true, ..sw }
        } else {
            let survivors = surviving(c, sw.state, sw.unknown);
            Sweep {
                unknown: sw.unknown.union(may_write(c, survivors)),
                steps,
                pins: if survivors.len() == 1 {
                    sw.pins.push((k as usize, survivors[0]))
                } else {
                    sw.pins
                },
                ..sw
            }
        },
        Task::Goal(_) => sw,
    }
}

/// A run keeps to what the sweep knows.
proof fn lemma_sweep_step<M: PlanModel>(
    d: HtnDomain<M>,
    seq: Seq<u32>,
    k: nat,
    sw: Sweep<M::Component>,
    depth: SweepDepth,
    e: ModelState<M>,
    spent: nat,
    moves: Seq<Move>,
    e2: ModelState<M>,
) -> (r: (nat, ModelState<M>))
    requires
        d.wf(),
        d.summarized(),
        known_tasks(d, seq),
        k < seq.len(),
        knows(d, sw, e, spent, depth),
        drains(d, e, tasks_work(seq.skip(k as int)), moves, e2),
    ensures
        r.0 <= moves.len(),
        drains(d, r.1, tasks_work(seq.skip((k + 1) as int)), moves.skip(r.0 as int), e2),
        knows(d, sweep_next(d, seq, k, sw, depth), r.1, spent + r.0, depth),
        !(d.tasks@[seq[k as int] as int] is Goal),
        d.tasks@[seq[k as int] as int] matches Task::Primitive(p) ==> sw.blind || !refuted(
            p.preconditions@,
            sw.state,
            sw.unknown,
        ),
        d.tasks@[seq[k as int] as int] matches Task::Compound(c) ==> depth is RefutationOnly
            || surviving(c, sw.state, sw.unknown).len() > 0,
        d.summaries@[seq[k as int] as int].terminating,
{
    let tasks = seq.skip(k as int);
    let t = seq[k as int];
    assert(tasks[0] == t);
    assert forall|i: int| 0 <= i < tasks.len() implies (#[trigger] tasks[i]) < d.tasks@.len() by {
        assert(tasks[i] == seq[k + i]);
    }
    let (n, mid) = lemma_first_task(d, e, tasks, moves, e2);
    assert(tasks.skip(1) =~= seq.skip((k + 1) as int));
    decomposed_tasks_terminate(d, e, t, moves.take(n as int), mid);
    assert(d.tasks@[t as int].wf(d.tasks@.len(), d.slots()));
    match d.tasks@[t as int] {
        Task::Primitive(p) => {
            lemma_after_len(p, sw.state);
            if !sw.blind {
                if refuted(p.preconditions@, sw.state, sw.unknown) {
                    lemma_refuted(p.preconditions@, e, sw.state, sw.unknown);
                }
                lemma_primitive_frame(d, e, t, sw.state, sw.unknown);
            }
        },
        Task::Compound(c) => {
            if depth is Full {
                lemma_compound_frame(d, e, t, moves.take(n as int), mid, sw.state, sw.unknown);
            }
        },
        Task::Goal(_) => {},
    }
    (n, mid)
}

/// One step of a sweep in declaration order.
proof fn lemma_sweep_unfolds<M: PlanModel>(
    d: HtnDomain<M>,
    seq: Seq<u32>,
    k: nat,
    sw: Sweep<M::Component>,
    budget: nat,
    depth: SweepDepth,
)
    requires
        k < seq.len(),
    ensures
        ({
            let r = sweep_from(d, seq, k, sw, budget, false, depth);
            let t = seq[k as int] as int;
            let next = sweep_next(d, seq, k, sw, depth);
            match d.tasks@[t] {
                Task::Primitive(p) => if next.steps > budget || !d.summaries@[t].terminating || (
                !sw.blind && refuted(p.preconditions@, sw.state, sw.unknown)) {
                    r is None
                } else {
                    r == sweep_from(d, seq, k + 1, next, budget, false, depth)
                },
                Task::Compound(c) => if crate::lookahead::capped_sum(
                    sw.steps,
                    d.summaries@[t].min_yield as nat,
                ) > budget || !d.summaries@[t].terminating || (depth is Full && surviving(c, sw.state, sw.unknown).len() == 0) {
                    r is None
                } else {
                    r == sweep_from(d, seq, k + 1, next, budget, false, depth)
                },
                Task::Goal(_) => r is Some ==> r == Some(sw.pins),
            }
        }),
{
    reveal_with_fuel(sweep_from, 2);
}

/// A dead end of a sweep in declaration order: every run of the sequence takes
/// more moves than the budget.
proof fn lemma_sweep_refutes<M: PlanModel>(
    d: HtnDomain<M>,
    seq: Seq<u32>,
    k: nat,
    sw: Sweep<M::Component>,
    budget: nat,
    depth: SweepDepth,
    e: ModelState<M>,
    spent: nat,
    moves: Seq<Move>,
    e2: ModelState<M>,
)
    requires
        d.wf(),
        d.summarized(),
        known_tasks(d, seq),
        k <= seq.len(),
        knows(d, sw, e, spent, depth),
        sweep_from(d, seq, k, sw, budget, false, depth) is None,
        drains(d, e, tasks_work(seq.skip(k as int)), moves, e2),
    ensures
        spent + moves.len() > budget,
    decreases seq.len() - k,
{
    if k < seq.len() {
        let (n, mid) = lemma_sweep_step(d, seq, k, sw, depth, e, spent, moves, e2);
        let next = sweep_next(d, seq, k, sw, depth);
        lemma_sweep_unfolds(d, seq, k, sw, budget, depth);
        if next.steps <= budget {
            if sweep_from(d, seq, k + 1, next, budget, false, depth) is None {
                lemma_sweep_refutes(
                    d,
                    seq,
                    k + 1,
                    next,
                    budget,
                    depth,
                    mid,
                    spent + n,
                    moves.skip(n as int),
                    e2,
                );
            }
        }
    }
}

/// The pins of a sweep start with those it was given; the others are at or
/// behind its position.
proof fn lemma_sweep_pins<M: PlanModel>(
    d: HtnDomain<M>,
    seq: Seq<u32>,
    k: nat,
    sw: Sweep<M::Component>,
    budget: nat,
    set_semantics: bool,
    depth: SweepDepth,
)
    requires
        k <= seq.len() <= usize::MAX,
    ensures
        sweep_from(d, seq, k, sw, budget, set_semantics, depth) matches Some(pins) ==> {
            &&& sw.pins.len() <= pins.len()
            &&& forall|i: int| 0 <= i < sw.pins.len() ==> pins[i] == sw.pins[i]
            &&& forall|i: int|
                sw.pins.len() <= i < pins.len() ==> k <= (#[trigger] pins[i]).0 < seq.len()
        },
    decreases seq.len() - k,
{
    if k < seq.len() && sweep_from(d, seq, k, sw, budget, set_semantics, depth) is Some {
        let pins = sweep_from(d, seq, k, sw, budget, set_semantics, depth)->Some_0;
        let t = seq[k as int] as int;
        let steps = crate::lookahead::capped_sum(sw.steps, d.summaries@[t].min_yield as nat);
        match d.tasks@[t] {
            Task::Primitive(p) => {
                lemma_sweep_pins(
                    d,
                    seq,
                    k + 1,
                    Sweep { steps, ..sw },
                    budget,
                    set_semantics,
                    depth,
                );
                lemma_sweep_pins(
                    d,
                    seq,
                    k + 1,
                    Sweep {
                        state: p.after(sw.state),
                        unknown: sw.unknown.union(written(p)),
                        steps,
                        ..sw
                    },
                    budget,
                    set_semantics,
                    depth,
                );
            },
            Task::Compound(c) => {
                if depth is RefutationOnly {
                    lemma_sweep_pins(
                        d,
                        seq,
                        k + 1,
                        Sweep { steps, blind: sw.blind || !set_semantics, ..sw },
                        budget,
                        set_semantics,
                        depth,
                    );
                } else {
                    let next = sweep_next(d, seq, k, sw, depth);
                    lemma_sweep_pins(d, seq, k + 1, next, budget, set_semantics, depth);
                    assert forall|i: int| sw.pins.len() <= i < pins.len() implies k <= (
                    #[trigger] pins[i]).0 < seq.len() by {
                        if i < next.pins.len() {
                            assert(pins[i] == next.pins[i]);
                        }
                    }
                    assert forall|i: int| 0 <= i < sw.pins.len() implies pins[i] == sw.pins[i] by {
                        assert(pins[i] == next.pins[i]);
                    }
                }
            },
            Task::Goal(_) => {},
        }
    }
}

/// Whether a method is the only one of a task that can be valid in `e`.
pub open spec fn only_choice<M: PlanModel>(
    d: HtnDomain<M>,
    t: int,
    method: int,
    e: ModelState<M>,
) -> bool {
    &&& 0 <= t < d.tasks@.len()
    &&& d.tasks@[t] is Compound
    &&& forall|j: int|
        0 <= j < d.tasks@[t]->Compound_0.methods@.len() && j != method ==> !(
        #[trigger] d.tasks@[t]->Compound_0.methods@[j]).valid(e)
}

/// The only survivor is the only choice.
proof fn lemma_only_survivor<M: PlanModel>(
    d: HtnDomain<M>,
    t: u32,
    e: ModelState<M>,
    s: ModelState<M>,
    unknown: Set<int>,
)
    requires
        d.wf(),
        t < d.tasks@.len(),
        d.tasks@[t as int] is Compound,
        e.len() == d.slots(),
        agree::<M>(e, s, unknown),
        surviving(d.tasks@[t as int]->Compound_0, s, unknown).len() == 1,
    ensures
        only_choice(
            d,
            t as int,
            surviving(d.tasks@[t as int]->Compound_0, s, unknown)[0] as int,
            e,
        ),
{
    let c = d.tasks@[t as int]->Compound_0;
    let survivors = surviving(c, s, unknown);
    assert(d.tasks@[t as int].wf(d.tasks@.len(), d.slots()));
    lemma_survivors(c, s, unknown, c.methods@.len());
    assert forall|j: int| 0 <= j < c.methods@.len() && j != survivors[0] implies !(
    #[trigger] c.methods@[j]).valid(e) by {
        let m = c.methods@[j];
        assert(m.wf(d.tasks@.len(), d.slots()));
        if !refuted(m.preconditions@, s, unknown) {
            assert(survivors.contains(j as usize));
            let at = survivors.index_of(j as usize);
            assert(survivors[at] == j as usize);
        }
        lemma_refuted(m.preconditions@, e, s, unknown);
    }
}

/// A pin of a sweep in declaration order: whatever run decomposes the tasks
/// before it, the pinned method is the only choice there.
#[verifier::rlimit(40)]
proof fn lemma_sweep_pin<M: PlanModel>(
    d: HtnDomain<M>,
    seq: Seq<u32>,
    k: nat,
    sw: Sweep<M::Component>,
    budget: nat,
    pins: Seq<(usize, usize)>,
    e: ModelState<M>,
    spent: nat,
    at: int,
    moves: Seq<Move>,
    e2: ModelState<M>,
)
    requires
        d.wf(),
        d.summarized(),
        known_tasks(d, seq),
        k <= seq.len() <= usize::MAX,
        knows(d, sw, e, spent, SweepDepth::Full),
        sweep_from(d, seq, k, sw, budget, false, SweepDepth::Full) == Some(pins),
        sw.pins.len() <= at < pins.len(),
        drains(d, e, tasks_work(seq.subrange(k as int, pins[at].0 as int)), moves, e2),
    ensures
        only_choice(d, seq[pins[at].0 as int] as int, pins[at].1 as int, e2),
    decreases seq.len() - k,
{
    let depth = SweepDepth::Full;
    lemma_sweep_pins(d, seq, k, sw, budget, false, depth);
    let pin = pins[at];
    if k < seq.len() {
        lemma_sweep_unfolds(d, seq, k, sw, budget, depth);
        let t = seq[k as int];
        let tasks = seq.subrange(k as int, pin.0 as int);
        let next = sweep_next(d, seq, k, sw, depth);
        if pin.0 == k {
            assert(tasks_work(tasks) =~= Seq::<ResumeStep>::empty());
            if moves.len() > 0 {
                assert(crate::refinement::play(
                    d,
                    Position { state: e, work: tasks_work(tasks) },
                    moves,
                ) is None);
            }
            assert(e2 == e);
            // The pin is the one that was pushed here: later ones lie behind.
            lemma_sweep_pins(d, seq, k + 1, next, budget, false, depth);
            assert(at < next.pins.len());
            let c = d.tasks@[t as int]->Compound_0;
            let survivors = surviving(c, sw.state, sw.unknown);
            assert(survivors.len() == 1);
            assert(pins[at] == next.pins[at]);
            assert(pin == (k as usize, survivors[0]));
            lemma_only_survivor(d, t, e, sw.state, sw.unknown);
        } else {
            let front = seq.take(pin.0 as int);
            assert(tasks =~= front.skip(k as int));
            assert(known_tasks(d, front));
            assert(front[k as int] == t);
            let (n, mid) = lemma_sweep_step(
                d,
                front,
                k,
                sw,
                depth,
                e,
                spent,
                moves,
                e2,
            );
            assert(sweep_next(d, front, k, sw, depth) == next);
            assert(front.skip((k + 1) as int) =~= seq.subrange((k + 1) as int, pin.0 as int));
            assert(sweep_from(d, seq, k + 1, next, budget, false, depth) == Some(pins));
            if d.tasks@[t as int] is Compound {
                assert(at >= next.pins.len()) by {
                    if at < next.pins.len() {
                        lemma_sweep_pins(d, seq, k + 1, next, budget, false, depth);
                        assert(pins[at] == next.pins[at]);
                    }
                }
            }
            lemma_sweep_pin(
                d,
                seq,
                k + 1,
                next,
                budget,
                pins,
                mid,
                spent + n,
                at,
                moves.skip(n as int),
                e2,
            );
        }
    }
}

proof fn lemma_refuted_below<M: PlanModel>(
    ps: Seq<Precondition<M>>,
    s: ModelState<M>,
    few: Set<int>,
    many: Set<int>,
)
    requires
        few.subset_of(many),
        refuted(ps, s, many),
    ensures
        refuted(ps, s, few),
{
    let i = choose|i: int| 0 <= i < ps.len() && definitely_false(#[trigger] ps[i], s, many);
    assert forall|j: int| 0 <= j < ps[i].reads@.len() implies !few.contains(
        #[trigger] ps[i].reads@[j] as int,
    ) by {
        assert(!many.contains(ps[i].reads@[j] as int));
    }
    assert(definitely_false(ps[i], s, few));
}

/// Whether nothing can be done with a task in any state that agrees with `s` on
/// the known slots.
spec fn stuck<M: PlanModel>(d: HtnDomain<M>, s: ModelState<M>, unknown: Set<int>, t: int) -> bool {
    !d.summaries@[t].terminating || match d.tasks@[t] {
        Task::Primitive(p) => refuted(p.preconditions@, s, unknown),
        Task::Compound(c) => forall|j: int|
            0 <= j < c.methods@.len() ==> refuted(
                (#[trigger] c.methods@[j]).preconditions@,
                s,
                unknown,
            ),
        Task::Goal(_) => false,
    }
}

proof fn lemma_task_sum_grows(tasks: Seq<u32>, v: Seq<nat>, k: nat, n: nat)
    requires
        k <= n,
    ensures
        task_sum(tasks, v, k) <= task_sum(tasks, v, n),
    decreases n,
{
    if k < n {
        lemma_task_sum_grows(tasks, v, k, (n - 1) as nat);
    }
}

/// A dead end of a sweep over an unordered set of members: they need more steps
/// than the budget, or nothing can be done with one of them.
proof fn lemma_set_sweep<M: PlanModel>(
    d: HtnDomain<M>,
    seq: Seq<u32>,
    k: nat,
    sw: Sweep<M::Component>,
    budget: nat,
    depth: SweepDepth,
    unknown: Set<int>,
)
    requires
        d.wf(),
        known_tasks(d, seq),
        d.summaries@.len() == d.tasks@.len(),
        k <= seq.len(),
        unknown.subset_of(sw.unknown),
        !sw.blind,
        sw.steps <= task_sum(seq, yield_bounds(d), k),
        sweep_from(d, seq, k, sw, budget, true, depth) is None,
    ensures
        task_sum(seq, yield_bounds(d), seq.len()) > budget || exists|j: int|
            0 <= j < seq.len() && stuck(d, sw.state, unknown, #[trigger] seq[j] as int),
    decreases seq.len() - k,
{
    if k < seq.len() {
        let t = seq[k as int] as int;
        assert(d.tasks@[t].wf(d.tasks@.len(), d.slots()));
        let steps = crate::lookahead::capped_sum(sw.steps, d.summaries@[t].min_yield as nat);
        assert(steps <= task_sum(seq, yield_bounds(d), k + 1));
        lemma_task_sum_grows(seq, yield_bounds(d), k + 1, seq.len());
        if steps <= budget && !d.summaries@[t].terminating {
            assert(stuck(d, sw.state, unknown, seq[k as int] as int));
        } else if steps <= budget {
            match d.tasks@[t] {
                Task::Primitive(p) => {
                    if refuted(p.preconditions@, sw.state, sw.unknown) {
                        lemma_refuted_below(p.preconditions@, sw.state, unknown, sw.unknown);
                        assert(stuck(d, sw.state, unknown, seq[k as int] as int));
                    } else {
                        lemma_set_sweep(
                            d,
                            seq,
                            k + 1,
                            Sweep { steps, ..sw },
                            budget,
                            depth,
                            unknown,
                        );
                    }
                },
                Task::Compound(c) => {
                    if depth is RefutationOnly {
                        lemma_set_sweep(
                            d,
                            seq,
                            k + 1,
                            Sweep { steps, blind: false, ..sw },
                            budget,
                            depth,
                            unknown,
                        );
                    } else if surviving(c, sw.state, sw.unknown).len() == 0 {
                        lemma_survivors(c, sw.state, sw.unknown, c.methods@.len());
                        assert forall|j: int| 0 <= j < c.methods@.len() implies refuted(
                            (#[trigger] c.methods@[j]).preconditions@,
                            sw.state,
                            unknown,
                        ) by {
                            if !refuted(c.methods@[j].preconditions@, sw.state, sw.unknown) {
                                assert(surviving(c, sw.state, sw.unknown).contains(j as usize));
                            }
                            lemma_refuted_below(
                                c.methods@[j].preconditions@,
                                sw.state,
                                unknown,
                                sw.unknown,
                            );
                        }
                        assert(stuck(d, sw.state, unknown, seq[k as int] as int));
                    } else {
                        lemma_set_sweep(
                            d,
                            seq,
                            k + 1,
                            sweep_next(d, seq, k, sw, depth),
                            budget,
                            depth,
                            unknown,
                        );
                    }
                },
                Task::Goal(_) => {},
            }
        }
    }
}

/// A pin of a sweep over an unordered set of members: the pinned method is the
/// only choice in every state that agrees with the starting state on what no
/// member may write.
proof fn lemma_set_pin<M: PlanModel>(
    d: HtnDomain<M>,
    seq: Seq<u32>,
    k: nat,
    sw: Sweep<M::Component>,
    budget: nat,
    pins: Seq<(usize, usize)>,
    unknown: Set<int>,
    at: int,
    e: ModelState<M>,
)
    requires
        d.wf(),
        known_tasks(d, seq),
        k <= seq.len() <= usize::MAX,
        unknown.subset_of(sw.unknown),
        !sw.blind,
        e.len() == d.slots(),
        agree::<M>(e, sw.state, unknown),
        sweep_from(d, seq, k, sw, budget, true, SweepDepth::Full) == Some(pins),
        sw.pins.len() <= at < pins.len(),
    ensures
        only_choice(d, seq[pins[at].0 as int] as int, pins[at].1 as int, e),
    decreases seq.len() - k,
{
    let depth = SweepDepth::Full;
    if k < seq.len() {
        let t = seq[k as int];
        let steps = crate::lookahead::capped_sum(
            sw.steps,
            d.summaries@[t as int].min_yield as nat,
        );
        match d.tasks@[t as int] {
            Task::Primitive(p) => {
                lemma_set_pin(
                    d,
                    seq,
                    k + 1,
                    Sweep { steps, ..sw },
                    budget,
                    pins,
                    unknown,
                    at,
                    e,
                );
            },
            Task::Compound(c) => {
                let next = sweep_next(d, seq, k, sw, depth);
                if at < next.pins.len() {
                    lemma_sweep_pins(d, seq, k + 1, next, budget, true, depth);
                    assert(pins[at] == next.pins[at]);
                    assert(agree::<M>(e, sw.state, sw.unknown));
                    lemma_only_survivor(d, t, e, sw.state, sw.unknown);
                } else {
                    lemma_set_pin(d, seq, k + 1, next, budget, pins, unknown, at, e);
                }
            },
            Task::Goal(_) => {},
        }
    }
}

/// Behind some of its members, a state agrees with the one before on what no
/// member may write.
proof fn lemma_members_agree<M: PlanModel>(
    d: HtnDomain<M>,
    m: Method<M>,
    s: ModelState<M>,
    work: Seq<ResumeStep>,
    moves: Seq<Move>,
    e: ModelState<M>,
)
    requires
        d.wf(),
        d.summarized(),
        m.wf(d.tasks@.len(), d.slots()),
        s.len() == d.slots(),
        crate::refinement::from_members(m, work),
        drains(d, s, work, moves, e),
    ensures
        e.len() == d.slots(),
        agree::<M>(e, s, set_writes(d, m.subtasks@, m.subtasks@.len())),
{
    let unknown = set_writes(d, m.subtasks@, m.subtasks@.len());
    assert forall|i: int| 0 <= i < work.len() implies ((#[trigger] work[i])
        matches ResumeStep::Task(t) ==> t < d.tasks@.len()) by {
        if work[i] is Task {
            let k = choose|k: int| 0 <= k < m.subtasks@.len() && m.subtasks@[k] == work[i]->Task_0;
            assert(m.subtasks@[k] < d.tasks@.len());
        }
    }
    lemma_run_len(d, s, work, moves, e);
    assert forall|f: int| 0 <= f < e.len() && !unknown.contains(f) implies #[trigger] e[f]
        == s[f] by {
        assert forall|i: int| 0 <= i < work.len() implies ((#[trigger] work[i])
            matches ResumeStep::Task(t) ==> !d.summaries@[t as int].possible_writes.has(f)) by {
            if work[i] is Task {
                let k = choose|k: int|
                    0 <= k < m.subtasks@.len() && m.subtasks@[k] == work[i]->Task_0;
                assert(m.subtasks@[k] == work[i]->Task_0);
            }
        }
        possible_writes_cover_every_run(d, s, work, moves, e, f);
    }
}

proof fn lemma_take_from_members<M: PlanModel>(m: Method<M>, work: Seq<ResumeStep>, i: int)
    requires
        crate::refinement::from_members(m, work),
        0 <= i <= work.len(),
    ensures
        crate::refinement::from_members(m, work.take(i)),
{
    assert forall|j: int| 0 <= j < work.take(i).len() implies ((#[trigger] work.take(i)[j])
        matches ResumeStep::Task(t) ==> exists|k: int|
        0 <= k < m.subtasks@.len() && m.subtasks@[k] == t) by {
        assert(work.take(i)[j] == work[j]);
    }
}

/// Work that a run decomposes holds no pause.
pub proof fn lemma_drained_has_no_pause<M: PlanModel>(
    d: HtnDomain<M>,
    s: ModelState<M>,
    work: Seq<ResumeStep>,
    moves: Seq<Move>,
    e: ModelState<M>,
    i: int,
)
    requires
        drains(d, s, work, moves, e),
        0 <= i < work.len(),
    ensures
        work[i] is Task,
{
    let (n, mid, n2, mid2) = lemma_drain_at(d, s, work, moves, e, i);
    let part = moves.subrange(n as int, (n + n2) as int);
    assert(seq![work[i]].len() == 1);
    assert(part.len() > 0);
    assert(make_move(d, Position { state: mid, work: seq![work[i]] }, part[0]) is Some);
}

/// A totally-ordered method's members, where no pause stands between them.
proof fn lemma_pauseless<M: PlanModel>(m: Method<M>, pins: Seq<(usize, usize)>, pos: nat)
    requires
        pos <= m.subtasks@.len(),
        forall|i: int|
            0 <= i < work_of(members_from(m, pins, pos)).len() ==> (#[trigger] work_of(
                members_from(m, pins, pos),
            )[i]) is Task,
    ensures
        work_of(members_from(m, pins, pos)) == tasks_work(m.subtasks@.skip(pos as int)),
    decreases m.subtasks@.len() - pos,
{
    let here = members_from(m, pins, pos);
    if m.pause_positions@.contains(pos as u32) {
        assert(here[0] is Pause);
        assert(work_of(here)[0] is Task);
    }
    if pos < m.subtasks@.len() {
        let rest = members_from(m, pins, pos + 1);
        assert forall|i: int| 0 <= i < work_of(rest).len() implies (#[trigger] work_of(rest)[i])
            is Task by {
            assert(here[i + 1] == rest[i]);
            assert(work_of(here)[i + 1] is Task);
        }
        lemma_pauseless(m, pins, pos + 1);
        let all = tasks_work(m.subtasks@.skip(pos as int));
        let less = tasks_work(m.subtasks@.skip((pos + 1) as int));
        assert(work_of(rest) == less);
        assert(less.len() == m.subtasks@.len() - pos - 1);
        assert(here.len() == rest.len() + 1);
        assert(work_of(here)[0] == all[0]);
        assert forall|i: int| 0 < i < work_of(here).len() implies work_of(here)[i] == all[i] by {
            assert(here[i] == rest[i - 1]);
            assert(work_of(rest)[i - 1] == less[i - 1]);
        }
    }
    assert(work_of(here) =~= tasks_work(m.subtasks@.skip(pos as int)));
}

/// A member of a totally-ordered method in the queue: its position, and what
/// stands before it where no pause does.
proof fn lemma_total_member<M: PlanModel>(
    m: Method<M>,
    pins: Seq<(usize, usize)>,
    pos: nat,
    i: int,
) -> (at: nat)
    requires
        pos <= m.subtasks@.len(),
        0 <= i < members_from(m, pins, pos).len(),
        members_from(m, pins, pos)[i] is Task,
        forall|j: int| 0 <= j < i ==> (#[trigger] members_from(m, pins, pos)[j]) is Task,
    ensures
        pos <= at < m.subtasks@.len(),
        members_from(m, pins, pos)[i] == Step::Task(
            m.subtasks@[at as int] as usize,
            pin_at(pins, at as int, 0),
        ),
        work_of(members_from(m, pins, pos).take(i)) == tasks_work(
            m.subtasks@.subrange(pos as int, at as int),
        ),
    decreases m.subtasks@.len() - pos,
{
    let here = members_from(m, pins, pos);
    if m.pause_positions@.contains(pos as u32) {
        assert(here[0] is Pause);
    }
    let rest = members_from(m, pins, pos + 1);
    if i == 0 {
        assert(work_of(here.take(0)) =~= tasks_work(m.subtasks@.subrange(pos as int, pos as int)));
        pos
    } else {
        assert(here[i] == rest[i - 1]);
        assert forall|j: int| 0 <= j < i - 1 implies (#[trigger] rest[j]) is Task by {
            assert(here[j + 1] == rest[j]);
        }
        let at = lemma_total_member(m, pins, pos + 1, i - 1);
        let all = tasks_work(m.subtasks@.subrange(pos as int, at as int));
        let less = tasks_work(m.subtasks@.subrange((pos + 1) as int, at as int));
        assert(work_of(rest.take(i - 1)).len() == i - 1);
        assert(less.len() == at - pos - 1);
        assert forall|j: int| 0 <= j < i implies work_of(here.take(i))[j] == all[j] by {
            if j > 0 {
                assert(here[j] == rest[j - 1]);
                assert(work_of(rest.take(i - 1))[j - 1] == less[j - 1]);
            }
        }
        assert(work_of(here.take(i)) =~= all);
        at
    }
}

proof fn lemma_pin_found(pins: Seq<(usize, usize)>, pos: int, k: nat) -> (at: int)
    requires
        pin_at(pins, pos, k) is Some,
    ensures
        k <= at < pins.len(),
        pins[at].0 == pos,
        pin_at(pins, pos, k) == Some(pins[at].1 as u32),
    decreases pins.len() - k,
{
    if pins[k as int].0 == pos {
        k as int
    } else {
        lemma_pin_found(pins, pos, k + 1)
    }
}

proof fn lemma_refutes_partial<M: PlanModel>(
    d: HtnDomain<M>,
    m: Method<M>,
    s: ModelState<M>,
    depth: SweepDepth,
    budget: nat,
    lin: nat,
    moves: Seq<Move>,
    e: ModelState<M>,
)
    requires
        d.wf(),
        d.summarized(),
        m.wf(d.tasks@.len(), d.slots()),
        s.len() == d.slots(),
        m.order is Partial,
        swept(d, s, m.subtasks@.take(sweep_end(m) as int), budget, m.order is Partial, depth) is None,
        has_order(m, lin),
        drains(d, s, method_work(m, lin), moves, e),
    ensures
        moves.len() > budget,
{
    let end = sweep_end(m) as int;
    let seq = m.subtasks@.take(end);
    let start = sweep_start(d, seq, s, m.order is Partial);
    assert(known_tasks(d, seq));
    assert(seq =~= m.subtasks@);
    let unknown = set_writes(d, seq, seq.len());
    lemma_set_sweep(d, seq, 0, start, budget, depth, unknown);
    lemma_work_members(m, lin);
    let work = method_work(m, lin);
    if task_sum(seq, yield_bounds(d), seq.len()) > budget {
        lemma_method_work_sum(m, lin, yield_bounds(d));
        assert forall|i: int| 0 <= i < work.len() implies ((#[trigger] work[i])
            matches ResumeStep::Task(t) ==> t < d.tasks@.len()) by {
            if work[i] is Task {
                let k = choose|k: int|
                    0 <= k < m.subtasks@.len() && m.subtasks@[k] == work[i]->Task_0;
                assert(m.subtasks@[k] < d.tasks@.len());
            }
        }
        min_yield_bounds_every_run(d, s, work, moves, e);
    } else {
        let j = choose|j: int|
            0 <= j < seq.len() && stuck(d, s, unknown, #[trigger] seq[j] as int);
        let t = m.subtasks@[j];
        assert(work.contains(ResumeStep::Task(t)));
        let i = work.index_of(ResumeStep::Task(t));
        let (n, mid, n2, mid2) = lemma_drain_at(d, s, work, moves, e, i);
        lemma_take_from_members(m, work, i);
        lemma_members_agree(d, m, s, work.take(i), moves.take(n as int), mid);
        let part = moves.subrange(n as int, (n + n2) as int);
        let one = seq![work[i]];
        assert(one.len() == 1);
        assert(part.len() > 0);
        assert(make_move(d, Position { state: mid, work: one }, part[0]) is Some);
        assert(d.tasks@[t as int].wf(d.tasks@.len(), d.slots()));
        decomposed_tasks_terminate(d, mid, t, part, mid2);
        match d.tasks@[t as int] {
            Task::Primitive(p) => {
                lemma_refuted(p.preconditions@, mid, s, unknown);
            },
            Task::Compound(c) => {
                let method = part[0]->method as int;
                assert(c.methods@[method].wf(d.tasks@.len(), d.slots()));
                lemma_refuted(c.methods@[method].preconditions@, mid, s, unknown);
            },
            Task::Goal(_) => {},
        }
        assert(false);
    }
}

proof fn lemma_refutes_total<M: PlanModel>(
    d: HtnDomain<M>,
    m: Method<M>,
    s: ModelState<M>,
    depth: SweepDepth,
    budget: nat,
    lin: nat,
    moves: Seq<Move>,
    e: ModelState<M>,
)
    requires
        d.wf(),
        d.summarized(),
        m.wf(d.tasks@.len(), d.slots()),
        s.len() == d.slots(),
        m.order is Total,
        swept(d, s, m.subtasks@.take(sweep_end(m) as int), budget, m.order is Partial, depth) is None,
        has_order(m, lin),
        drains(d, s, method_work(m, lin), moves, e),
    ensures
        moves.len() > budget,
{
    let end = sweep_end(m) as int;
    let seq = m.subtasks@.take(end);
    let start = sweep_start(d, seq, s, m.order is Partial);
    assert(known_tasks(d, seq));
    let work = method_work(m, lin);
    assert forall|i: int| 0 <= i < work.len() implies (#[trigger] work[i]) is Task by {
        lemma_drained_has_no_pause(d, s, work, moves, e, i);
    }
    lemma_pauseless(m, Seq::empty(), 0);
    assert(m.subtasks@.skip(0) =~= m.subtasks@);
    let front = tasks_work(seq);
    let rest = tasks_work(m.subtasks@.skip(end));
    assert(work =~= front + rest);
    let (n, mid) = lemma_drain_split(d, s, front, rest, moves, e);
    assert(seq.skip(0) =~= seq);
    assert(agree::<M>(s, s, Set::empty()));
    assert(knows(d, start, s, 0, depth));
    lemma_sweep_refutes(
        d,
        seq,
        0,
        start,
        budget,
        depth,
        s,
        0,
        moves.take(n as int),
        mid,
    );
}

/// No minimum yield exceeds what a machine word holds, so a sweep with as large
/// a budget as that is never short of budget.
proof fn lemma_sweep_unlimited<M: PlanModel>(
    d: HtnDomain<M>,
    seq: Seq<u32>,
    k: nat,
    sw: Sweep<M::Component>,
    budget: nat,
    set_semantics: bool,
    depth: SweepDepth,
)
    requires
        budget >= usize::MAX,
    ensures
        sweep_from(d, seq, k, sw, budget, set_semantics, depth) == sweep_from(
            d,
            seq,
            k,
            sw,
            usize::MAX as nat,
            set_semantics,
            depth,
        ),
    decreases seq.len() - k,
{
    if k < seq.len() {
        let t = seq[k as int] as int;
        let steps = crate::lookahead::capped_sum(sw.steps, d.summaries@[t].min_yield as nat);
        let next = match d.tasks@[t] {
            Task::Primitive(p) => if set_semantics || k + 1 >= seq.len() {
                Sweep { steps, ..sw }
            } else {
                sweep_next(d, seq, k, sw, depth)
            },
            Task::Compound(c) => if depth is RefutationOnly {
                Sweep { steps, blind: sw.blind || !set_semantics, ..sw }
            } else {
                sweep_next(d, seq, k, sw, depth)
            },
            Task::Goal(_) => sw,
        };
        lemma_sweep_unlimited(d, seq, k + 1, next, budget, set_semantics, depth);
    }
}

/// The look-ahead refutes soundly: where it rules a method out, every run
/// through the method, in whichever of its orders, takes more moves than the
/// budget; and a method that it rules out whatever the budget is on no run.
pub proof fn look_ahead_refutes_soundly<M: PlanModel>(
    d: HtnDomain<M>,
    m: Method<M>,
    s: ModelState<M>,
    tier: SweepTier,
    budget: nat,
    lin: nat,
    moves: Seq<Move>,
    e: ModelState<M>,
)
    requires
        d.wf(),
        d.summarized(),
        m.wf(d.tasks@.len(), d.slots()),
        s.len() == d.slots(),
        has_order(m, lin),
        drains(d, s, method_work(m, lin), moves, e),
    ensures
        foreseen(d, m, s, tier, budget) is None ==> moves.len() > budget,
        foreseen(d, m, s, tier, usize::MAX as nat) is Some,
{
    let depth = if tier is Full {
        SweepDepth::Full
    } else {
        SweepDepth::RefutationOnly
    };
    let seq = m.subtasks@.take(sweep_end(m) as int);
    let set = m.order is Partial;
    let most = vstd::math::max(moves.len() as int, usize::MAX as int) as nat;
    lemma_sweep_unlimited(d, seq, 0, sweep_start(d, seq, s, set), most, set, depth);
    if swept(d, s, seq, budget, set, depth) is None {
        lemma_refutes(d, m, s, depth, budget, lin, moves, e);
    }
    if swept(d, s, seq, most, set, depth) is None {
        lemma_refutes(d, m, s, depth, most, lin, moves, e);
    }
}

proof fn lemma_refutes<M: PlanModel>(
    d: HtnDomain<M>,
    m: Method<M>,
    s: ModelState<M>,
    depth: SweepDepth,
    budget: nat,
    lin: nat,
    moves: Seq<Move>,
    e: ModelState<M>,
)
    requires
        d.wf(),
        d.summarized(),
        m.wf(d.tasks@.len(), d.slots()),
        s.len() == d.slots(),
        swept(d, s, m.subtasks@.take(sweep_end(m) as int), budget, m.order is Partial, depth) is None,
        has_order(m, lin),
        drains(d, s, method_work(m, lin), moves, e),
    ensures
        moves.len() > budget,
{
    if m.order is Partial {
        lemma_refutes_partial(d, m, s, depth, budget, lin, moves, e);
    } else {
        lemma_refutes_total(d, m, s, depth, budget, lin, moves, e);
    }
}

proof fn lemma_pins_total<M: PlanModel>(
    d: HtnDomain<M>,
    m: Method<M>,
    s: ModelState<M>,
    budget: nat,
    pins: Seq<(usize, usize)>,
    i: int,
    moves: Seq<Move>,
    e: ModelState<M>,
)
    requires
        d.wf(),
        d.summarized(),
        m.wf(d.tasks@.len(), d.slots()),
        s.len() == d.slots(),
        m.order is Total,
        swept(
            d,
            s,
            m.subtasks@.take(sweep_end(m) as int),
            budget,
            m.order is Partial,
            SweepDepth::Full,
        ) == Some(pins),
        0 <= i < members_from(m, pins, 0).len(),
        (members_from(m, pins, 0)[i] matches Step::Task(t, Some(pm))),
        drains(d, s, work_of(members_from(m, pins, 0).take(i)), moves, e),
    ensures
        only_choice(
            d,
            members_from(m, pins, 0)[i]->Task_0 as int,
            (members_from(m, pins, 0)[i]->Task_1)->Some_0 as int,
            e,
        ),
{
    let queue = members_from(m, pins, 0);
    let end = sweep_end(m) as int;
    let seq = m.subtasks@.take(end);
    let start = sweep_start(d, seq, s, m.order is Partial);
    assert(known_tasks(d, seq));
    let front = work_of(queue.take(i));
    assert forall|j: int| 0 <= j < i implies (#[trigger] queue[j]) is Task by {
        lemma_drained_has_no_pause(d, s, front, moves, e, j);
        assert(front[j] is Task);
        assert(queue.take(i)[j] == queue[j]);
    }
    let pos = lemma_total_member(m, pins, 0, i);
    let at = lemma_pin_found(pins, pos as int, 0);
    lemma_sweep_pins(d, seq, 0, start, budget, false, SweepDepth::Full);
    assert(pins[at].0 < seq.len());
    assert(seq.subrange(0, pos as int) =~= m.subtasks@.subrange(0, pos as int));
    assert(agree::<M>(s, s, Set::empty()));
    assert(knows(d, start, s, 0, SweepDepth::Full));
    lemma_sweep_pin(d, seq, 0, start, budget, pins, s, 0, at, moves, e);
    lemma_pin_in_range(d, seq, 0, start, budget, false, pins, at);
}

proof fn lemma_pins_partial<M: PlanModel>(
    d: HtnDomain<M>,
    m: Method<M>,
    s: ModelState<M>,
    budget: nat,
    pins: Seq<(usize, usize)>,
    i: int,
    moves: Seq<Move>,
    e: ModelState<M>,
)
    requires
        d.wf(),
        d.summarized(),
        m.wf(d.tasks@.len(), d.slots()),
        s.len() == d.slots(),
        m.order is Partial,
        swept(
            d,
            s,
            m.subtasks@.take(sweep_end(m) as int),
            budget,
            m.order is Partial,
            SweepDepth::Full,
        ) == Some(pins),
        0 <= i < crate::search::members_in_order(m, m.order->first@, pins, 0).len(),
        (crate::search::members_in_order(m, m.order->first@, pins, 0)[i] matches Step::Task(t, Some(pm))),
        drains(d, s, work_of(crate::search::members_in_order(m, m.order->first@, pins, 0).take(i)), moves, e),
    ensures
        only_choice(
            d,
            crate::search::members_in_order(m, m.order->first@, pins, 0)[i]->Task_0 as int,
            (crate::search::members_in_order(m, m.order->first@, pins, 0)[i]->Task_1)->Some_0 as int,
            e,
        ),
{
    let queue = crate::search::members_in_order(m, m.order->first@, pins, 0);
    let end = sweep_end(m) as int;
    let seq = m.subtasks@.take(end);
    let start = sweep_start(d, seq, s, m.order is Partial);
    assert(known_tasks(d, seq));
    let front = work_of(queue.take(i));
    lemma_partial_work(m, 0);
    assert(seq =~= m.subtasks@);
    let order = m.order->first@;
    lemma_ordered_member(m, order, pins, 0, i);
    let pos = order[i] as int;
    let at = lemma_pin_found(pins, pos, 0);
    lemma_ordered_from_members(m, order, pins, i);
    lemma_members_agree(d, m, s, front, moves, e);
    lemma_set_pin(d, seq, 0, start, budget, pins, set_writes(d, seq, seq.len()), at, e);
    lemma_pin_in_range(d, seq, 0, start, budget, true, pins, at);
}

/// The look-ahead pins soundly: whatever run decomposes what is queued before a
/// pinned member, the pinned method is the only one of the member's that can be
/// valid there.
pub proof fn look_ahead_pins_soundly<M: PlanModel>(
    d: HtnDomain<M>,
    m: Method<M>,
    s: ModelState<M>,
    tier: SweepTier,
    budget: nat,
    pins: Seq<(usize, usize)>,
    i: int,
    moves: Seq<Move>,
    e: ModelState<M>,
)
    requires
        d.wf(),
        d.summarized(),
        m.wf(d.tasks@.len(), d.slots()),
        s.len() == d.slots(),
        foreseen(d, m, s, tier, budget) == Some(pins),
        0 <= i < crate::search::members(m, pins).len(),
        drains(d, s, work_of(crate::search::members(m, pins).take(i)), moves, e),
    ensures
        crate::search::members(m, pins)[i] matches Step::Task(t, Some(pm)) ==> only_choice(
            d,
            t as int,
            pm as int,
            e,
        ),
{
    let queue = crate::search::members(m, pins);
    if queue[i] matches Step::Task(t, Some(pm)) {
        if !(tier is Full) {
            lemma_unpinned(m, i);
        }
        match m.order {
            SubtaskOrder::Total => {
                lemma_pins_total(d, m, s, budget, pins, i, moves, e);
            },
            SubtaskOrder::Partial { preds, orders, first } => {
                lemma_pins_partial(d, m, s, budget, pins, i, moves, e);
            },
        }
    }
}

/// Without pins no member is pinned.
pub proof fn lemma_unpinned<M: PlanModel>(m: Method<M>, i: int)
    requires
        0 <= i < crate::search::members(m, Seq::empty()).len(),
    ensures
        crate::search::members(m, Seq::empty())[i] matches Step::Task(t, pin) ==> pin is None,
{
    match m.order {
        SubtaskOrder::Total => {
            lemma_unpinned_total(m, 0, i);
        },
        SubtaskOrder::Partial { preds, orders, first } => {
            lemma_ordered_member(m, first@, Seq::empty(), 0, i);
        },
    }
}

proof fn lemma_unpinned_total<M: PlanModel>(m: Method<M>, pos: nat, i: int)
    requires
        0 <= i < members_from(m, Seq::empty(), pos).len(),
    ensures
        members_from(m, Seq::empty(), pos)[i] matches Step::Task(t, pin) ==> pin is None,
    decreases m.subtasks@.len() - pos,
{
    if pos < m.subtasks@.len() {
        let rest = members_from(m, Seq::empty(), pos + 1);
        let here = members_from(m, Seq::empty(), pos);
        let n = here.len() - rest.len();
        if i >= n {
            assert(here[i] == rest[i - n]);
            lemma_unpinned_total(m, pos + 1, i - n);
        }
    }
}

/// A pinned method is one of the member's methods, so its index fits the queue
/// entry.
proof fn lemma_pin_in_range<M: PlanModel>(
    d: HtnDomain<M>,
    seq: Seq<u32>,
    k: nat,
    sw: Sweep<M::Component>,
    budget: nat,
    set_semantics: bool,
    pins: Seq<(usize, usize)>,
    at: int,
)
    requires
        d.wf(),
        known_tasks(d, seq),
        k <= seq.len() <= usize::MAX,
        sweep_from(d, seq, k, sw, budget, set_semantics, SweepDepth::Full) == Some(pins),
        sw.pins.len() <= at < pins.len(),
    ensures
        pins[at].1 <= u32::MAX,
    decreases seq.len() - k,
{
    let depth = SweepDepth::Full;
    if k < seq.len() {
        let t = seq[k as int] as int;
        let steps = crate::lookahead::capped_sum(sw.steps, d.summaries@[t].min_yield as nat);
        assert(d.tasks@[t].wf(d.tasks@.len(), d.slots()));
        match d.tasks@[t] {
            Task::Primitive(p) => {
                if set_semantics || k + 1 >= seq.len() {
                    lemma_pin_in_range(
                        d,
                        seq,
                        k + 1,
                        Sweep { steps, ..sw },
                        budget,
                        set_semantics,
                        pins,
                        at,
                    );
                } else {
                    lemma_pin_in_range(
                        d,
                        seq,
                        k + 1,
                        sweep_next(d, seq, k, sw, depth),
                        budget,
                        set_semantics,
                        pins,
                        at,
                    );
                }
            },
            Task::Compound(c) => {
                let next = sweep_next(d, seq, k, sw, depth);
                if at < next.pins.len() {
                    lemma_sweep_pins(d, seq, k + 1, next, budget, set_semantics, depth);
                    assert(pins[at] == next.pins[at]);
                    lemma_survivors(c, sw.state, sw.unknown, c.methods@.len());
                    assert(surviving(c, sw.state, sw.unknown)[0] < c.methods@.len());
                } else {
                    lemma_pin_in_range(
                        d,
                        seq,
                        k + 1,
                        next,
                        budget,
                        set_semantics,
                        pins,
                        at,
                    );
                }
            },
            Task::Goal(_) => {},
        }
    }
}

pub proof fn lemma_ordered_member<M: PlanModel>(
    m: Method<M>,
    order: Seq<u8>,
    pins: Seq<(usize, usize)>,
    k: nat,
    i: int,
)
    requires
        k <= order.len(),
    ensures
        crate::search::members_in_order(m, order, pins, k).len() == order.len() - k,
        0 <= i < order.len() - k ==> crate::search::members_in_order(m, order, pins, k)[i]
            == Step::Task(
            m.subtasks@[order[k + i] as int] as usize,
            pin_at(pins, order[k + i] as int, 0),
        ),
    decreases order.len() - k,
{
    if k < order.len() {
        lemma_ordered_member(m, order, pins, k + 1, i - 1);
    }
}

proof fn lemma_ordered_from_members<M: PlanModel>(
    m: Method<M>,
    order: Seq<u8>,
    pins: Seq<(usize, usize)>,
    i: int,
)
    requires
        0 <= i <= order.len(),
        forall|j: int| 0 <= j < order.len() ==> (#[trigger] order[j]) < m.subtasks@.len(),
    ensures
        crate::refinement::from_members(
            m,
            work_of(crate::search::members_in_order(m, order, pins, 0).take(i)),
        ),
{
    let queue = crate::search::members_in_order(m, order, pins, 0);
    lemma_ordered_member(m, order, pins, 0, 0);
    let front = work_of(queue.take(i));
    assert forall|j: int| 0 <= j < front.len() implies ((#[trigger] front[j])
        matches ResumeStep::Task(t) ==> exists|k: int|
        0 <= k < m.subtasks@.len() && m.subtasks@[k] == t) by {
        lemma_ordered_member(m, order, pins, 0, j);
        assert(queue.take(i)[j] == queue[j]);
        assert(m.subtasks@[order[j] as int] == front[j]->Task_0);
    }
}

} // verus!
