//! How the search strategies relate to each other.

use crate::domain::{first_valid_is_the_least, HtnDomain, Task};
use crate::model::{ModelState, PlanModel};
use crate::order::SubtaskOrder;
use crate::planner::{answer, searched, start_queue, ResumeStep};
use crate::ranking::ranked_methods;
use crate::refinement::{has_order, known_work};
use crate::search::{
    after_failure, candidate, child_of, event, explore, exploring_traces_its_choices, foreseen,
    frame_of, lemma_explore_left,
    lemma_passed_left, lemma_pick_left, lemma_rejected_left, members, members_at, method_base,
    next_position, passed_over, pick, positions, prefix_of, refused, rejected, restored,
    run_primitive, settled, standing_choices, streak_of, tier_of, traced, FrameView, Incumbent, Node, Prefix, Progress,
    SearchConfig, Step, Verdict,
};
use crate::selection::{DecompositionTrace, TraceOutcome};
use crate::soundness::{lemma_members_known, lemma_pick_valid, plain};
use vstd::prelude::*;

verus! {

/// Whether no primitive task of a domain declares a cost.
pub open spec fn cost_free<M: PlanModel>(d: HtnDomain<M>) -> bool {
    forall|t: int|
        0 <= t < d.tasks@.len() ==> ((#[trigger] d.tasks@[t]) matches Task::Primitive(prim)
            ==> prim.cost is None)
}

/// Whether queue entries are known tasks, pauses, and at the front possibly a
/// known method to commit again.
spec fn queued<M: PlanModel>(d: HtnDomain<M>, queue: Seq<Step>) -> bool {
    forall|i: int|
        0 <= i < queue.len() ==> match #[trigger] queue[i] {
            Step::Task(t, _) => t < d.tasks@.len(),
            Step::Pause => true,
            Step::Linearize { task, method, lin } => {
                &&& i == 0
                &&& task < d.tasks@.len()
                &&& d.tasks@[task as int] is Compound
                &&& method < d.tasks@[task as int]->Compound_0.methods@.len()
                &&& has_order(
                    d.tasks@[task as int]->Compound_0.methods@[method as int],
                    lin as nat,
                )
            },
        }
}

/// Whether a frame goes back to known work.
spec fn frame_queued<M: PlanModel>(d: HtnDomain<M>, f: FrameView<M::Component>) -> bool {
    &&& f.task < d.tasks@.len()
    &&& d.tasks@[f.task as int] is Compound
    &&& f.method < d.tasks@[f.task as int]->Compound_0.methods@.len()
    &&& match d.tasks@[f.task as int]->Compound_0.methods@[f.method as int].order {
        SubtaskOrder::Total => f.lin == 0,
        SubtaskOrder::Partial { preds, orders, first } => f.lin_total == orders,
    }
    &&& plain(d, f.queue)
}

proof fn lemma_rejected_same<M: PlanModel>(
    d: HtnDomain<M>,
    cfg: SearchConfig,
    other: SearchConfig,
    task: nat,
    ranked: Seq<u32>,
    k: nat,
    p: Progress,
)
    requires
        cfg.tracing == other.tracing,
    ensures
        rejected(d, cfg, task, ranked, k, p) == rejected(d, other, task, ranked, k, p),
    decreases k,
{
    if k > 0 {
        lemma_rejected_same(d, cfg, other, task, ranked, (k - 1) as nat, p);
    }
}

proof fn lemma_passed_same<M: PlanModel>(
    d: HtnDomain<M>,
    cfg: SearchConfig,
    other: SearchConfig,
    t: nat,
    pin: Option<u32>,
    from: nat,
    to: nat,
    p: Progress,
)
    requires
        cfg.tracing == other.tracing,
    ensures
        passed_over(d, cfg, t, pin, from, to, p) == passed_over(d, other, t, pin, from, to, p),
    decreases to,
{
    if from < to {
        lemma_passed_same(d, cfg, other, t, pin, from, (to - 1) as nat, p);
    }
}

/// While there is no best plan, the cost bound picks what the plain search
/// picks.
proof fn lemma_pick_same<M: PlanModel>(
    d: HtnDomain<M>,
    cfg: SearchConfig,
    bounded: SearchConfig,
    t: nat,
    s: ModelState<M>,
    g: u64,
    here: Prefix,
    ranked: Seq<u32>,
    pin: Option<u32>,
    pos: nat,
    p: Progress,
)
    requires
        bounded == (SearchConfig { cost_bounded: true, ..cfg }),
        !cfg.cost_bounded,
        p.best is None,
    ensures
        pick(d, bounded, t, s, g, here, ranked, pin, pos, p) == pick(
            d,
            cfg,
            t,
            s,
            g,
            here,
            ranked,
            pin,
            pos,
            p,
        ),
    decreases positions(d.tasks@[t as int]->Compound_0, ranked, pin) - pos,
{
    let c = d.tasks@[t as int]->Compound_0;
    first_valid_is_the_least(c, s, pos);
    match candidate(c, s, ranked, pin, pos) {
        None => {
            lemma_passed_same(d, cfg, bounded, t, pin, pos, c.methods@.len(), p);
        },
        Some(mi) => {
            let q = passed_over(d, cfg, t, pin, pos, mi, p);
            lemma_passed_same(d, cfg, bounded, t, pin, pos, mi, p);
            lemma_passed_left(d, cfg, t, pin, pos, mi, p);
            let m = c.methods@[mi as int];
            let next = next_position(c, pin, pos, mi);
            let streak = streak_of(d, cfg, p, t, mi);
            assert(tier_of(d, cfg, m, streak) == tier_of(d, bounded, m, streak));
            if foreseen(d, m, s, tier_of(d, cfg, m, streak), p.left) is None {
                lemma_pick_same(
                    d,
                    cfg,
                    bounded,
                    t,
                    s,
                    g,
                    here,
                    ranked,
                    pin,
                    next,
                    refused(d, cfg, t, mi, s, here, q),
                );
            }
        },
    }
}

/// Nothing costs less than a plan that costs nothing.
proof fn lemma_free_best_stays<M: PlanModel>(
    d: HtnDomain<M>,
    cfg: SearchConfig,
    node: Node<M::Component>,
    pos: nat,
    p: Progress,
)
    requires
        p.best matches Some(b) && b.cost == 0,
    ensures
        explore(d, cfg, node, pos, p).1.best == p.best,
    decreases p.left, 0nat,
{
    if node.queue.len() > 0 && p.left > 0 {
        let p1 = Progress { left: (p.left - 1) as nat, ..p };
        match node.queue[0] {
            Step::Pause => {},
            Step::Linearize { task, method, lin } => {
                let m = d.tasks@[task as int]->Compound_0.methods@[method as int];
                let p2 = traced(
                    cfg,
                    p1,
                    event(d, task as nat, method as nat, TraceOutcome::Selected),
                );
                lemma_free_best_stays(
                    d,
                    cfg,
                    Node {
                        queue: members_at(m, lin as nat) + node.queue.skip(1),
                        mtr: node.mtr.push(method as usize),
                        ..node
                    },
                    0,
                    p2,
                );
            },
            Step::Task(t, pin) => match d.tasks@[t as int] {
                Task::Goal(_) => {},
                Task::Primitive(prim) => {
                    lemma_free_best_stays(d, cfg, run_primitive(d, cfg, node, t), 0, p1);
                },
                Task::Compound(c) => {
                    let ranked = ranked_methods(c, node.state, node.plan.len() as u64);
                    let p2 = if pin is Some || c.policy is FirstMatch {
                        p1
                    } else {
                        rejected(d, cfg, t as nat, ranked, c.methods@.len(), p1)
                    };
                    lemma_rejected_left(d, cfg, t as nat, ranked, c.methods@.len(), p1);
                    lemma_pick_left(d, cfg, t as nat, node.state, node.g, prefix_of(node), ranked, pin, pos, p2);
                    let (choice, p3) = pick(
                        d,
                        cfg,
                        t as nat,
                        node.state,
                        node.g,
                        prefix_of(node),
                        ranked,
                        pin,
                        pos,
                        p2,
                    );
                    if let Some(commit) = choice {
                        let p4 = traced(
                            cfg,
                            p3,
                            event(d, t as nat, commit.method, TraceOutcome::Selected),
                        );
                        let child = child_of(d, node, t, commit);
                        lemma_free_best_stays(d, cfg, child, 0, p4);
                        let r = explore(d, cfg, child, 0, p4);
                        if r.0 is Fail && r.1.left < p.left {
                            lemma_free_best_survives(
                                d,
                                cfg,
                                frame_of(d, node, t, pin, commit),
                                r.1,
                            );
                        }
                    }
                },
            },
        }
    }
}

proof fn lemma_free_best_survives<M: PlanModel>(
    d: HtnDomain<M>,
    cfg: SearchConfig,
    f: FrameView<M::Component>,
    p: Progress,
)
    requires
        p.best matches Some(b) && b.cost == 0,
    ensures
        after_failure(d, cfg, f, p).1.best == p.best,
    decreases p.left, 1nat,
{
    let p1 = traced(
        cfg,
        p,
        event(d, f.task as nat, f.method as nat, TraceOutcome::Backtracked),
    );
    if 0 < f.lin < f.lin_total {
        let step = Step::Linearize { task: f.task as u32, method: f.method as u32, lin: f.lin as u32 };
        let node = restored(f, step);
        lemma_free_best_stays(d, cfg, node, 0, p1);
        let r = explore(d, cfg, node, 0, p1);
        if r.0 is Fail && r.1.left < p.left {
            lemma_free_best_survives(d, cfg, FrameView { lin: f.lin + 1, ..f }, r.1);
        }
    } else if f.pinned is None {
        lemma_free_best_stays(d, cfg, restored(f, Step::Task(f.task, f.pinned)), f.resume, p1);
    }
}

/// Whether a cost-bounded result keeps what a plain one stops with: they are the
/// same with no best plan, or the plain one is the best plan, which costs
/// nothing.
spec fn keeps(first: (Verdict, Progress), bounded: (Verdict, Progress)) -> bool {
    ||| first == bounded && bounded.1.best is None
    ||| {
        &&& first.0 matches Verdict::Stop(o) && o.status is Complete && o.resume is None
            && bounded.1.best == Some(Incumbent { plan: o.plan, mtr: o.mtr, cost: 0 })
        &&& first.1.best is None
    }
}

#[verifier::rlimit(40)]
proof fn lemma_explore_keeps<M: PlanModel>(
    d: HtnDomain<M>,
    cfg: SearchConfig,
    bounded: SearchConfig,
    node: Node<M::Component>,
    pos: nat,
    p: Progress,
)
    requires
        d.wf(),
        cost_free(d),
        bounded == (SearchConfig { cost_bounded: true, ..cfg }),
        !cfg.cost_bounded,
        !cfg.fail_fast,
        p.best is None,
        node.g == 0,
        queued(d, node.queue),
    ensures
        keeps(explore(d, cfg, node, pos, p), explore(d, bounded, node, pos, p)),
    decreases p.left, 0nat,
{
    if node.queue.len() > 0 && p.left > 0 {
        let p1 = Progress { left: (p.left - 1) as nat, ..p };
        assert forall|i: int| 0 <= i < node.queue.skip(1).len() implies (
        #[trigger] node.queue.skip(1)[i]) == node.queue[i + 1] by {}
        assert(plain(d, node.queue.skip(1)));
        match node.queue[0] {
            Step::Pause => {},
            Step::Linearize { task, method, lin } => {
                let m = d.tasks@[task as int]->Compound_0.methods@[method as int];
                let e = event(d, task as nat, method as nat, TraceOutcome::Selected);
                let next = Node {
                    queue: members_at(m, lin as nat) + node.queue.skip(1),
                    mtr: node.mtr.push(method as usize),
                    ..node
                };
                lemma_members_known(d, task as int, method as int, Seq::empty());
                lemma_plain_queued(d, members_at(m, lin as nat), node.queue.skip(1));
                assert(traced(cfg, p1, e) == traced(bounded, p1, e));
                lemma_explore_keeps(d, cfg, bounded, next, 0, traced(cfg, p1, e));
            },
            Step::Task(t, pin) => match d.tasks@[t as int] {
                Task::Goal(_) => {},
                Task::Primitive(prim) => {
                    assert(prim.cost is None);
                    assert(prim.step_cost(node.state) == 0);
                    if prim.ready(node.state) {
                        let next = run_primitive(d, cfg, node, t);
                        assert(next == run_primitive(d, bounded, node, t));
                        lemma_plain_queued(d, Seq::empty(), node.queue.skip(1));
                        assert(Seq::<Step>::empty() + node.queue.skip(1) =~= node.queue.skip(1));
                        lemma_explore_keeps(d, cfg, bounded, next, 0, p1);
                    }
                },
                Task::Compound(c) => {
                    lemma_compound_keeps(d, cfg, bounded, node, pos, p, t, pin);
                },
            },
        }
    }
}

proof fn lemma_plain_queued<M: PlanModel>(d: HtnDomain<M>, a: Seq<Step>, b: Seq<Step>)
    requires
        plain(d, a),
        plain(d, b),
    ensures
        queued(d, a + b),
{
    assert forall|i: int| 0 <= i < (a + b).len() implies match #[trigger] (a + b)[i] {
        Step::Task(t, _) => t < d.tasks@.len(),
        Step::Pause => true,
        Step::Linearize { .. } => false,
    } by {
        if i < a.len() {
            assert((a + b)[i] == a[i]);
        } else {
            assert((a + b)[i] == b[i - a.len()]);
        }
    }
}

#[verifier::rlimit(60)]
proof fn lemma_compound_keeps<M: PlanModel>(
    d: HtnDomain<M>,
    cfg: SearchConfig,
    bounded: SearchConfig,
    node: Node<M::Component>,
    pos: nat,
    p: Progress,
    t: usize,
    pin: Option<u32>,
)
    requires
        d.wf(),
        cost_free(d),
        bounded == (SearchConfig { cost_bounded: true, ..cfg }),
        !cfg.cost_bounded,
        !cfg.fail_fast,
        p.best is None,
        p.left > 0,
        node.g == 0,
        queued(d, node.queue),
        node.queue.len() > 0,
        node.queue[0] == Step::Task(t, pin),
        plain(d, node.queue.skip(1)),
        d.tasks@[t as int] is Compound,
    ensures
        keeps(explore(d, cfg, node, pos, p), explore(d, bounded, node, pos, p)),
    decreases p.left - 1, 2nat,
{
    let c = d.tasks@[t as int]->Compound_0;
    let p1 = Progress { left: (p.left - 1) as nat, ..p };
    let nonce = node.plan.len() as u64;
    let ranked = ranked_methods(c, node.state, nonce);
    assert(d.tasks@[t as int].wf(d.tasks@.len(), d.slots()));
    lemma_rejected_same(d, cfg, bounded, t as nat, ranked, c.methods@.len(), p1);
    lemma_rejected_left(d, cfg, t as nat, ranked, c.methods@.len(), p1);
    let p2 = if pin is Some || c.policy is FirstMatch {
        p1
    } else {
        rejected(d, cfg, t as nat, ranked, c.methods@.len(), p1)
    };
    lemma_pick_same(d, cfg, bounded, t as nat, node.state, node.g, prefix_of(node), ranked, pin, pos, p2);
    lemma_pick_left(d, cfg, t as nat, node.state, node.g, prefix_of(node), ranked, pin, pos, p2);
    lemma_pick_valid(d, cfg, t as nat, node.state, node.g, prefix_of(node), nonce, pin, pos, p2);
    let (choice, p3) = pick(d, cfg, t as nat, node.state, node.g, prefix_of(node), ranked, pin, pos, p2);
    if let Some(commit) = choice {
        let e = event(d, t as nat, commit.method, TraceOutcome::Selected);
        let p4 = traced(cfg, p3, e);
        assert(p4 == traced(bounded, p3, e));
        let child = child_of(d, node, t, commit);
        let m = c.methods@[commit.method as int];
        lemma_members_known(d, t as int, commit.method as int, commit.pins);
        lemma_plain_queued(d, members(m, commit.pins), node.queue.skip(1));
        lemma_explore_keeps(d, cfg, bounded, child, 0, p4);
        let first = explore(d, cfg, child, 0, p4);
        let second = explore(d, bounded, child, 0, p4);
        let f = frame_of(d, node, t, pin, commit);
        lemma_explore_left(d, cfg, child, 0, p4);
        lemma_explore_left(d, bounded, child, 0, p4);
        if first.0 is Fail {
            lemma_after_failure_keeps(d, cfg, bounded, f, first.1);
        } else if second.0 is Fail {
            lemma_free_best_survives(d, bounded, f, second.1);
        }
    }
}

#[verifier::rlimit(40)]
proof fn lemma_after_failure_keeps<M: PlanModel>(
    d: HtnDomain<M>,
    cfg: SearchConfig,
    bounded: SearchConfig,
    f: FrameView<M::Component>,
    p: Progress,
)
    requires
        d.wf(),
        cost_free(d),
        bounded == (SearchConfig { cost_bounded: true, ..cfg }),
        !cfg.cost_bounded,
        !cfg.fail_fast,
        p.best is None,
        f.g == 0,
        frame_queued(d, f),
    ensures
        keeps(after_failure(d, cfg, f, p), after_failure(d, bounded, f, p)),
    decreases p.left, 1nat,
{
    let e = event(d, f.task as nat, f.method as nat, TraceOutcome::Backtracked);
    let p1 = traced(cfg, p, e);
    assert(p1 == traced(bounded, p, e));
    assert(d.tasks@[f.task as int].wf(d.tasks@.len(), d.slots()));
    if 0 < f.lin < f.lin_total {
        let step = Step::Linearize { task: f.task as u32, method: f.method as u32, lin: f.lin as u32 };
        let node = restored(f, step);
        assert forall|i: int| 0 < i < node.queue.len() implies (#[trigger] node.queue[i])
            == f.queue[i - 1] by {}
        assert(node.queue[0] == step);
        assert(queued(d, node.queue));
        lemma_explore_keeps(d, cfg, bounded, node, 0, p1);
        lemma_explore_left(d, cfg, node, 0, p1);
        lemma_explore_left(d, bounded, node, 0, p1);
        let first = explore(d, cfg, node, 0, p1);
        let second = explore(d, bounded, node, 0, p1);
        let f2 = FrameView { lin: f.lin + 1, ..f };
        if first.0 is Fail {
            lemma_after_failure_keeps(d, cfg, bounded, f2, first.1);
        } else if second.0 is Fail {
            lemma_free_best_survives(d, bounded, f2, second.1);
        }
    } else if f.pinned is None {
        let node = restored(f, Step::Task(f.task, f.pinned));
        assert forall|i: int| 0 < i < node.queue.len() implies (#[trigger] node.queue[i])
            == f.queue[i - 1] by {}
        assert(node.queue[0] == Step::Task(f.task, f.pinned));
        assert(queued(d, node.queue));
        lemma_explore_keeps(d, cfg, bounded, node, f.resume, p1);
    }
}

/// Where no task declares a cost, the cost-bounded search answers what the
/// depth-first search answers.
pub proof fn without_costs_the_first_plan_is_best<M: PlanModel>(
    d: HtnDomain<M>,
    cfg: SearchConfig,
    limit: nat,
    work: Seq<ResumeStep>,
    mtr: Seq<usize>,
    s: ModelState<M>,
    trace: Seq<DecompositionTrace>,
)
    requires
        d.wf(),
        known_work(d, work),
        cost_free(d),
        !cfg.fail_fast,
    ensures
        answer(
            searched(
                d,
                SearchConfig { cost_bounded: true, ..cfg },
                limit,
                work,
                mtr,
                s,
                trace,
            ),
        ) == answer(
            searched(
                d,
                SearchConfig { cost_bounded: false, ..cfg },
                limit,
                work,
                mtr,
                s,
                trace,
            ),
        ),
{
    let node = Node { state: s, queue: start_queue(work), plan: Seq::empty(), mtr, g: 0 };
    let p = Progress {
        left: limit,
        streaks: Seq::new(method_base(d, d.tasks@.len()), |i: int| 0u32),
        best: None,
        cut: None,
        trace,
    };
    assert forall|i: int| 0 <= i < node.queue.len() implies match #[trigger] node.queue[i] {
        Step::Task(t, _) => t < d.tasks@.len(),
        Step::Pause => true,
        Step::Linearize { .. } => false,
    } by {
        assert(work[i] matches ResumeStep::Task(t) ==> t < d.tasks@.len());
    }
    lemma_explore_keeps(
        d,
        SearchConfig { cost_bounded: false, ..cfg },
        SearchConfig { cost_bounded: true, ..cfg },
        node,
        0,
        p,
    );
}

proof fn lemma_fail_fast_stops<M: PlanModel>(
    d: HtnDomain<M>,
    cfg: SearchConfig,
    node: Node<M::Component>,
    pos: nat,
    p: Progress,
)
    requires
        cfg.fail_fast,
        !cfg.cost_bounded,
    ensures
        explore(d, cfg, node, pos, p).0 is Stop,
    decreases p.left,
{
    if node.queue.len() > 0 && p.left > 0 {
        let p1 = Progress { left: (p.left - 1) as nat, ..p };
        match node.queue[0] {
            Step::Pause => {},
            Step::Linearize { task, method, lin } => {
                let m = d.tasks@[task as int]->Compound_0.methods@[method as int];
                let p2 = traced(
                    cfg,
                    p1,
                    event(d, task as nat, method as nat, TraceOutcome::Selected),
                );
                lemma_fail_fast_stops(
                    d,
                    cfg,
                    Node {
                        queue: members_at(m, lin as nat) + node.queue.skip(1),
                        mtr: node.mtr.push(method as usize),
                        ..node
                    },
                    0,
                    p2,
                );
            },
            Step::Task(t, pin) => match d.tasks@[t as int] {
                Task::Goal(_) => {},
                Task::Primitive(prim) => {
                    lemma_fail_fast_stops(d, cfg, run_primitive(d, cfg, node, t), 0, p1);
                },
                Task::Compound(c) => {
                    let ranked = ranked_methods(c, node.state, node.plan.len() as u64);
                    let p2 = if pin is Some || c.policy is FirstMatch {
                        p1
                    } else {
                        rejected(d, cfg, t as nat, ranked, c.methods@.len(), p1)
                    };
                    lemma_rejected_left(d, cfg, t as nat, ranked, c.methods@.len(), p1);
                    lemma_pick_left(d, cfg, t as nat, node.state, node.g, prefix_of(node), ranked, pin, pos, p2);
                    let (choice, p3) = pick(
                        d,
                        cfg,
                        t as nat,
                        node.state,
                        node.g,
                        prefix_of(node),
                        ranked,
                        pin,
                        pos,
                        p2,
                    );
                    if let Some(commit) = choice {
                        let p4 = traced(
                            cfg,
                            p3,
                            event(d, t as nat, commit.method, TraceOutcome::Selected),
                        );
                        lemma_fail_fast_stops(d, cfg, child_of(d, node, t, commit), 0, p4);
                    }
                },
            },
        }
    }
}

/// A fail-fast search always answers with a plan: what it has compiled by the
/// first failure, a partial plan.
pub proof fn fail_fast_always_answers<M: PlanModel>(
    d: HtnDomain<M>,
    cfg: SearchConfig,
    limit: nat,
    work: Seq<ResumeStep>,
    mtr: Seq<usize>,
    s: ModelState<M>,
    trace: Seq<DecompositionTrace>,
)
    requires
        cfg.fail_fast,
        !cfg.cost_bounded,
    ensures
        answer(searched(d, cfg, limit, work, mtr, s, trace)) is Some,
{
    let node = Node { state: s, queue: start_queue(work), plan: Seq::empty(), mtr, g: 0 };
    let p = Progress {
        left: limit,
        streaks: Seq::new(method_base(d, d.tasks@.len()), |i: int| 0u32),
        best: None,
        cut: None,
        trace,
    };
    lemma_fail_fast_stops(d, cfg, node, 0, p);
}

/// Tracing changes no answer. A search that records its decisions answers what one
/// that does not answers; it only appends to the record. Where it stops, the
/// choices in the record that were not taken back are as many as the plan it
/// stops with made; where it is exhausted, all were taken back.
pub proof fn tracing_changes_no_answer<M: PlanModel>(
    d: HtnDomain<M>,
    cfg: SearchConfig,
    limit: nat,
    work: Seq<ResumeStep>,
    mtr: Seq<usize>,
    s: ModelState<M>,
    before: Seq<DecompositionTrace>,
)
    requires
        cfg.tracing,
    ensures
        ({
            let r = searched(d, cfg, limit, work, mtr, s, before);
            let plain = searched(
                d,
                (SearchConfig { tracing: false, ..cfg }),
                limit,
                work,
                mtr,
                s,
                Seq::empty(),
            );
            &&& answer(r) == answer(plain)
            &&& plain.1.trace.len() == 0
            &&& before.is_prefix_of(r.1.trace)
            &&& standing_choices(r.1.trace) - standing_choices(before) == match r.0 {
                Verdict::Fail => 0,
                Verdict::Stop(o) => o.mtr.len() - mtr.len(),
            }
        }),
{
    let quiet = SearchConfig { tracing: false, ..cfg };
    let node = Node { state: s, queue: start_queue(work), plan: Seq::empty(), mtr, g: 0 };
    let none = Seq::<DecompositionTrace>::empty();
    let streaks = Seq::new(method_base(d, d.tasks@.len()), |i: int| 0u32);
    let p = Progress { left: limit, streaks, best: None, cut: None, trace: before };
    let q = Progress { left: limit, streaks, best: None, cut: None, trace: none };
    assert(settled(node.queue, 0));
    exploring_traces_its_choices(d, cfg, quiet, node, 0, p, q);
    exploring_traces_its_choices(d, quiet, cfg, node, 0, q, p);
}

proof fn lemma_fail_fast_counts<M: PlanModel>(
    d: HtnDomain<M>,
    cfg: SearchConfig,
    node: Node<M::Component>,
    pos: nat,
    p: Progress,
)
    requires
        cfg.fail_fast,
        !cfg.cost_bounded,
    ensures
        ({
            let r = explore(d, cfg, node, pos, p);
            r.0 matches Verdict::Stop(o) && {
                let made = (o.plan.len() - node.plan.len()) + (o.mtr.len() - node.mtr.len());
                &&& made <= p.left - r.1.left <= made + 1
                &&& o.status is Partial && p.left - r.1.left == made ==> r.1.left == 0
            }
        }),
    decreases p.left,
{
    lemma_fail_fast_stops(d, cfg, node, pos, p);
    if node.queue.len() > 0 && p.left > 0 {
        let p1 = Progress { left: (p.left - 1) as nat, ..p };
        match node.queue[0] {
            Step::Pause => {},
            Step::Linearize { task, method, lin } => {
                let m = d.tasks@[task as int]->Compound_0.methods@[method as int];
                let p2 = traced(
                    cfg,
                    p1,
                    event(d, task as nat, method as nat, TraceOutcome::Selected),
                );
                lemma_fail_fast_counts(
                    d,
                    cfg,
                    Node {
                        queue: members_at(m, lin as nat) + node.queue.skip(1),
                        mtr: node.mtr.push(method as usize),
                        ..node
                    },
                    0,
                    p2,
                );
            },
            Step::Task(t, pin) => match d.tasks@[t as int] {
                Task::Goal(_) => {},
                Task::Primitive(prim) => {
                    lemma_fail_fast_counts(d, cfg, run_primitive(d, cfg, node, t), 0, p1);
                },
                Task::Compound(c) => {
                    let ranked = ranked_methods(c, node.state, node.plan.len() as u64);
                    let p2 = if pin is Some || c.policy is FirstMatch {
                        p1
                    } else {
                        rejected(d, cfg, t as nat, ranked, c.methods@.len(), p1)
                    };
                    lemma_rejected_left(d, cfg, t as nat, ranked, c.methods@.len(), p1);
                    lemma_pick_left(d, cfg, t as nat, node.state, node.g, prefix_of(node), ranked, pin, pos, p2);
                    let (choice, p3) = pick(
                        d,
                        cfg,
                        t as nat,
                        node.state,
                        node.g,
                        prefix_of(node),
                        ranked,
                        pin,
                        pos,
                        p2,
                    );
                    if let Some(commit) = choice {
                        let p4 = traced(
                            cfg,
                            p3,
                            event(d, t as nat, commit.method, TraceOutcome::Selected),
                        );
                        let child = child_of(d, node, t, commit);
                        lemma_fail_fast_counts(d, cfg, child, 0, p4);
                        assert(explore(d, cfg, node, pos, p) == explore(d, cfg, child, 0, p4));
                    }
                },
            },
        }
    }
}

/// The step budget counts what is done: a fail-fast search, which never goes back,
/// uses one unit for each step of its plan and each choice that it makes, and at
/// most one more, for what it stops at. It is cut short for want of budget only
/// once the budget is used up.
pub proof fn the_step_budget_counts_steps_and_choices<M: PlanModel>(
    d: HtnDomain<M>,
    cfg: SearchConfig,
    limit: nat,
    work: Seq<ResumeStep>,
    mtr: Seq<usize>,
    s: ModelState<M>,
    trace: Seq<DecompositionTrace>,
)
    requires
        cfg.fail_fast,
        !cfg.cost_bounded,
    ensures
        ({
            let r = searched(d, cfg, limit, work, mtr, s, trace);
            r.0 matches Verdict::Stop(o) && {
                let made = o.plan.len() + (o.mtr.len() - mtr.len());
                &&& made <= limit - r.1.left <= made + 1
                &&& o.status is Partial && limit - r.1.left == made ==> r.1.left == 0
            }
        }),
{
    let node = Node { state: s, queue: start_queue(work), plan: Seq::empty(), mtr, g: 0 };
    let p = Progress {
        left: limit,
        streaks: Seq::new(method_base(d, d.tasks@.len()), |i: int| 0u32),
        best: None,
        cut: None,
        trace,
    };
    lemma_fail_fast_counts(d, cfg, node, 0, p);
}

} // verus!
