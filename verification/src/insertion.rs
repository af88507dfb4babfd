//! What task insertion does to the plans of a domain: it adds to them, and takes
//! none away.

use crate::building::{
    baked_method, baked_task, domain_of, preds_mask, preds_of, GoalEntry,
};
use crate::domain::{HtnDomain, Method};
use crate::gtn::{carried, gapped_entry, gapped_method, inserted, Sharing};
use crate::model::{ModelState, PlanModel};
use crate::order::SubtaskOrder;
use crate::planner::ResumeStep;
use crate::recording::{
    entry_of, lemma_entry_found, MemberProto, MethodProto, Recorder, SubtaskRef, TaskProto,
};
use crate::refinement::{
    drains, has_order, lemma_work_members, make_move, method_work, play, steps_of, Move, Position,
};
use crate::search::{members_from, pin_at, work_of, Step};
use vstd::prelude::*;

verus! {

/// Whether `y` is `x` with occurrences of task `gap` put in.
pub open spec fn widened(x: Seq<ResumeStep>, y: Seq<ResumeStep>, gap: u32) -> bool
    decreases y.len(),
{
    if y.len() == 0 {
        x.len() == 0
    } else if y[0] == ResumeStep::Task(gap) {
        widened(x, y.skip(1), gap)
    } else {
        x.len() > 0 && x[0] == y[0] && widened(x.skip(1), y.skip(1), gap)
    }
}

proof fn lemma_widened_same(x: Seq<ResumeStep>, gap: u32)
    requires
        !x.contains(ResumeStep::Task(gap)),
    ensures
        widened(x, x, gap),
    decreases x.len(),
{
    if x.len() > 0 {
        assert(x.contains(x[0]));
        assert forall|i: int| 0 <= i < x.skip(1).len() implies x.skip(1)[i] != ResumeStep::Task(
            gap,
        ) by {
            assert(x.contains(x[i + 1]));
        }
        lemma_widened_same(x.skip(1), gap);
    }
}

proof fn lemma_widened_joins(
    a: Seq<ResumeStep>,
    b: Seq<ResumeStep>,
    x: Seq<ResumeStep>,
    y: Seq<ResumeStep>,
    gap: u32,
)
    requires
        widened(a, b, gap),
        widened(x, y, gap),
    ensures
        widened(a + x, b + y, gap),
    decreases b.len(),
{
    if b.len() == 0 {
        assert(a + x =~= x);
        assert(b + y =~= y);
    } else {
        assert((b + y)[0] == b[0]);
        assert((b + y).skip(1) =~= b.skip(1) + y);
        if b[0] == ResumeStep::Task(gap) {
            lemma_widened_joins(a, b.skip(1), x, y, gap);
        } else {
            assert((a + x)[0] == a[0]);
            assert((a + x).skip(1) =~= a.skip(1) + x);
            lemma_widened_joins(a.skip(1), b.skip(1), x, y, gap);
        }
    }
}

proof fn lemma_steps_front(mv: Move, rest: Seq<Move>)
    ensures
        steps_of(seq![mv] + rest) == (match mv {
            Move::Do(t) => seq![t],
            _ => Seq::empty(),
        }) + steps_of(rest),
    decreases rest.len(),
{
    let all = seq![mv] + rest;
    if rest.len() == 0 {
        assert(all.drop_last() =~= Seq::<Move>::empty());
        assert(steps_of(all.drop_last()) =~= Seq::<usize>::empty());
        assert(all.last() == mv);
        assert(steps_of(rest) =~= Seq::<usize>::empty());
        assert(steps_of(all) =~= (match mv {
            Move::Do(t) => seq![t],
            _ => Seq::empty(),
        }) + steps_of(rest));
    } else {
        assert(all.drop_last() =~= seq![mv] + rest.drop_last());
        assert(all.last() == rest.last());
        lemma_steps_front(mv, rest.drop_last());
        assert(steps_of(all) =~= (match mv {
            Move::Do(t) => seq![t],
            _ => Seq::empty(),
        }) + steps_of(rest));
    }
}

/// Whether the pauses of every recorded branch stand before, between or behind
/// its members, where declaring them puts them.
pub open spec fn pauses_in_place<M: PlanModel>(rec: Recorder<M>) -> bool {
    forall|t: int, i: int, k: int|
        0 <= t < rec.tasks@.len() && (rec.tasks@[t].proto matches TaskProto::Compound {
            methods,
            policy,
        } && 0 <= i < methods@.len() && 0 <= k < methods@[i].pause_positions@.len())
            ==> #[trigger] rec.tasks@[t].proto->methods@[i].pause_positions@[k]
            <= rec.tasks@[t].proto->methods@[i].subtasks@.len()
}

/// Whether domain `e` is domain `d` with insertion compiled in: of the recordings
/// `a` and `b` that they are baked from, `b` is `a` after insertion.
pub open spec fn widens<M: PlanModel>(
    a: Recorder<M>,
    b: Recorder<M>,
    sharings: Seq<Sharing>,
    goals: Seq<GoalEntry<M>>,
    d: HtnDomain<M>,
    e: HtnDomain<M>,
) -> bool {
    &&& a.wf()
    &&& pauses_in_place(a)
    &&& inserted(a, b, sharings)
    &&& domain_of(a, goals, d)
    &&& domain_of(b, goals, e)
}

/// A reference finds the same task after insertion; the gap's reference finds
/// the task behind all others.
proof fn lemma_entries_stay<M: PlanModel>(
    a: Recorder<M>,
    b: Recorder<M>,
    sharings: Seq<Sharing>,
    r: SubtaskRef,
)
    requires
        a.wf(),
        inserted(a, b, sharings),
        b.tasks@.len() <= usize::MAX,
    ensures
        entry_of(a.tasks@, r) is Some ==> entry_of(b.tasks@, r) == entry_of(a.tasks@, r),
        entry_of(b.tasks@, SubtaskRef::Synthetic(a.next_synthetic)) == Some(
            a.tasks@.len() as usize,
        ),
{
    let gap = SubtaskRef::Synthetic(a.next_synthetic);
    let member = MemberProto {
        task: gap,
        name: b.tasks@[a.tasks@.len() as int].name,
        chained: true,
    };
    lemma_entry_found(a.tasks@, r, 0);
    lemma_entry_found(b.tasks@, r, 0);
    lemma_entry_found(b.tasks@, gap, 0);
    assert forall|i: int| 0 <= i < a.tasks@.len() implies (#[trigger] b.tasks@[i]).id
        == a.tasks@[i].id && a.tasks@[i].id != gap by {
        assert(gapped_entry(a.tasks@[i], b.tasks@[i], member));
        assert(a.tasks@[i].id matches SubtaskRef::Synthetic(s) ==> s < a.next_synthetic);
    }
    assert(b.tasks@[a.tasks@.len() as int].id == gap);
    if let Some(i) = entry_of(a.tasks@, r) {
        let j = entry_of(b.tasks@, r)->Some_0;
        assert(b.tasks@[i as int].id == r);
        if j < i {
            assert(a.tasks@[j as int].id == b.tasks@[j as int].id);
        } else if i < j {
            assert(b.tasks@[i as int].id != r);
        }
    }
    let g = entry_of(b.tasks@, gap)->Some_0;
    if g < a.tasks@.len() {
        assert(b.tasks@[g as int].id == a.tasks@[g as int].id);
    }
}

/// Whether the pauses of `w` stand where those of `m` are carried to: before the
/// gap in front of a member, or behind the last gap.
spec fn pauses_carried<M: PlanModel>(m: Method<M>, w: Method<M>) -> bool {
    let n = m.subtasks@.len();
    &&& forall|i: int|
        0 <= i < n ==> {
            &&& #[trigger] w.pause_positions@.contains((2 * i) as u32)
                == m.pause_positions@.contains(i as u32)
            &&& !w.pause_positions@.contains((2 * i + 1) as u32)
        }
    &&& !w.pause_positions@.contains((2 * n) as u32)
    &&& w.pause_positions@.contains((2 * n + 1) as u32) == m.pause_positions@.contains(n as u32)
}

proof fn lemma_pauses_carried<M: PlanModel>(m: Method<M>, w: Method<M>)
    requires
        2 * m.subtasks@.len() + 1 <= u32::MAX,
        forall|k: int|
            0 <= k < m.pause_positions@.len() ==> (#[trigger] m.pause_positions@[k])
                <= m.subtasks@.len(),
        w.pause_positions@ == Seq::new(
            m.pause_positions@.len(),
            |k: int| carried(m.pause_positions@[k], m.subtasks@.len()),
        ),
    ensures
        pauses_carried(m, w),
{
    let n = m.subtasks@.len();
    let x = m.pause_positions@;
    let y = w.pause_positions@;
    assert forall|q: u32| #[trigger] y.contains(q) implies exists|k: int|
        0 <= k < x.len() && q == carried(#[trigger] x[k], n) by {
        let k = y.index_of(q);
        assert(q == carried(x[k], n));
    }
    assert forall|p: u32| #[trigger] x.contains(p) implies y.contains(carried(p, n)) by {
        let k = x.index_of(p);
        assert(y[k] == carried(p, n));
    }
    assert forall|i: int| 0 <= i < n implies {
        &&& #[trigger] y.contains((2 * i) as u32) == x.contains(i as u32)
        &&& !y.contains((2 * i + 1) as u32)
    } by {
        if x.contains(i as u32) {
            assert(carried(i as u32, n) == (2 * i) as u32);
        }
        if y.contains((2 * i) as u32) {
            let k = choose|k: int|
                0 <= k < x.len() && (2 * i) as u32 == carried(#[trigger] x[k], n);
            assert(x[k] == i as u32);
        }
        if y.contains((2 * i + 1) as u32) {
            let k = choose|k: int|
                0 <= k < x.len() && (2 * i + 1) as u32 == carried(#[trigger] x[k], n);
            assert(x[k] <= n);
        }
    }
    if y.contains((2 * n) as u32) {
        let k = choose|k: int| 0 <= k < x.len() && (2 * n) as u32 == carried(#[trigger] x[k], n);
        assert(x[k] <= n);
    }
    if x.contains(n as u32) {
        assert(carried(n as u32, n) == (2 * n + 1) as u32);
    }
    if y.contains((2 * n + 1) as u32) {
        let k = choose|k: int|
            0 <= k < x.len() && (2 * n + 1) as u32 == carried(#[trigger] x[k], n);
        assert(x[k] == n as u32);
    }
}

/// The pause that stands at a position, if any.
spec fn pause_at<M: PlanModel>(m: Method<M>, pos: nat) -> Seq<Step> {
    if m.pause_positions@.contains(pos as u32) {
        seq![Step::Pause]
    } else {
        Seq::empty()
    }
}

/// The members of a totally-ordered branch from position `pos` on, and those of
/// the same branch with gaps.
proof fn lemma_total_widened<M: PlanModel>(m: Method<M>, w: Method<M>, gap: u32, pos: nat)
    requires
        pauses_carried(m, w),
        pos <= m.subtasks@.len(),
        w.subtasks@.len() == 2 * m.subtasks@.len() + 1,
        forall|i: int| 0 <= i <= m.subtasks@.len() ==> #[trigger] w.subtasks@[2 * i] == gap,
        forall|i: int|
            0 <= i < m.subtasks@.len() ==> (#[trigger] m.subtasks@[i]) == w.subtasks@[2 * i + 1]
                && m.subtasks@[i] != gap,
    ensures
        widened(
            work_of(members_from(m, Seq::empty(), pos)),
            work_of(members_from(w, Seq::empty(), 2 * pos)),
            gap,
        ),
    decreases m.subtasks@.len() - pos,
{
    let none = Seq::<(usize, usize)>::empty();
    let n = m.subtasks@.len();
    let x = members_from(m, none, pos);
    let y = members_from(w, none, 2 * pos);
    let y1 = members_from(w, none, 2 * pos + 1);
    let here = Step::Task(gap as usize, pin_at(none, 2 * pos as int, 0));
    assert(w.subtasks@[2 * pos as int] == gap);
    assert(y =~= pause_at(w, 2 * pos) + (seq![here] + y1));
    assert(work_of(seq![here] + y1)[0] == ResumeStep::Task(gap));
    assert(work_of(seq![here] + y1).skip(1) =~= work_of(y1));
    if pos == n {
        assert(x =~= pause_at(m, n));
        assert(y1 =~= pause_at(w, 2 * n + 1));
        assert(pause_at(w, 2 * n + 1) == pause_at(m, n));
        assert(!work_of(x).contains(ResumeStep::Task(gap)));
        lemma_widened_same(work_of(x), gap);
        assert(pause_at(w, 2 * pos) =~= Seq::<Step>::empty());
        assert(y =~= seq![here] + y1);
        assert(widened(work_of(x), work_of(y1), gap));
    } else {
        let u = m.subtasks@[pos as int];
        let x1 = members_from(m, none, pos + 1);
        let y2 = members_from(w, none, 2 * (pos + 1));
        let a = seq![Step::Task(u as usize, pin_at(none, pos as int, 0))] + x1;
        let b = seq![Step::Task(u as usize, pin_at(none, (2 * pos + 1) as int, 0))] + y2;
        assert(w.subtasks@[2 * pos as int + 1] == u);
        assert(w.pause_positions@.contains((2 * pos as int) as u32)
            == m.pause_positions@.contains(pos as u32));
        assert(pause_at(w, 2 * pos + 1) =~= Seq::<Step>::empty());
        assert(pause_at(w, 2 * pos) == pause_at(m, pos));
        assert(x =~= pause_at(m, pos) + a);
        assert(y1 =~= b);
        assert(work_of(a)[0] == ResumeStep::Task(u));
        assert(work_of(b)[0] == ResumeStep::Task(u));
        assert(work_of(a).skip(1) =~= work_of(x1));
        assert(work_of(b).skip(1) =~= work_of(y2));
        lemma_total_widened(m, w, gap, pos + 1);
        assert(widened(work_of(a), work_of(b), gap));
        assert(widened(work_of(a), work_of(seq![here] + y1), gap));
        let p = work_of(pause_at(m, pos));
        assert(!p.contains(ResumeStep::Task(gap)));
        lemma_widened_same(p, gap);
        lemma_widened_joins(p, p, work_of(a), work_of(seq![here] + y1), gap);
        assert(work_of(x) =~= p + work_of(a));
        assert(work_of(y) =~= p + work_of(seq![here] + y1));
    }
}

/// A baked branch and the same branch baked after insertion, with what they were
/// recorded as.
spec fn branch_pair<M: PlanModel>(
    a: Recorder<M>,
    b: Recorder<M>,
    x: MethodProto<M>,
    y: MethodProto<M>,
    m: Method<M>,
    w: Method<M>,
) -> bool {
    &&& baked_method(a.tasks@, x, m)
    &&& baked_method(b.tasks@, y, w)
    &&& y == x || gapped_method(x, y, gap_member(a, b))
}

/// The member that stands in gaps.
spec fn gap_member<M: PlanModel>(a: Recorder<M>, b: Recorder<M>) -> MemberProto {
    MemberProto {
        task: SubtaskRef::Synthetic(a.next_synthetic),
        name: b.tasks@[a.tasks@.len() as int].name,
        chained: true,
    }
}

proof fn lemma_branch_pair<M: PlanModel>(
    a: Recorder<M>,
    b: Recorder<M>,
    sharings: Seq<Sharing>,
    goals: Seq<GoalEntry<M>>,
    d: HtnDomain<M>,
    e: HtnDomain<M>,
    t: int,
    method: int,
)
    requires
        widens(a, b, sharings, goals, d, e),
        0 <= t < a.tasks@.len(),
        d.tasks@[t] is Compound,
        0 <= method < d.tasks@[t]->Compound_0.methods@.len(),
    ensures
        a.tasks@[t].proto is Compound,
        method < a.tasks@[t].proto->methods@.len(),
        e.tasks@[t] is Compound,
        method < e.tasks@[t]->Compound_0.methods@.len(),
        branch_pair(
            a,
            b,
            a.tasks@[t].proto->methods@[method],
            b.tasks@[t].proto->methods@[method],
            d.tasks@[t]->Compound_0.methods@[method],
            e.tasks@[t]->Compound_0.methods@[method],
        ),
{
    assert(gapped_entry(a.tasks@[t], b.tasks@[t], gap_member(a, b)));
    assert(baked_task(a.tasks@, a.tasks@[t], d.tasks@[t]));
    assert(baked_task(b.tasks@, b.tasks@[t], e.tasks@[t]));
    let m = d.tasks@[t]->Compound_0.methods@[method];
    let w = e.tasks@[t]->Compound_0.methods@[method];
    assert(baked_method(a.tasks@, a.tasks@[t].proto->methods@[method], m));
    assert(baked_method(b.tasks@, b.tasks@[t].proto->methods@[method], w));
}

/// A branch whose members stay comes to the same work.
proof fn lemma_kept_branch<M: PlanModel>(
    a: Recorder<M>,
    b: Recorder<M>,
    sharings: Seq<Sharing>,
    x: MethodProto<M>,
    y: MethodProto<M>,
    m: Method<M>,
    w: Method<M>,
    lin: nat,
)
    requires
        a.wf(),
        inserted(a, b, sharings),
        b.tasks@.len() <= u32::MAX,
        branch_pair(a, b, x, y, m, w),
        y == x || x.unordered || x.edges@.len() > 0 || x.subtasks@.len() == 0,
    ensures
        has_order(w, lin) == has_order(m, lin),
        method_work(w, lin) == method_work(m, lin),
{
    lemma_same_preds(x, y);
    assert forall|i: int| 0 <= i < m.subtasks@.len() implies m.subtasks@[i] == w.subtasks@[i] by {
        assert(entry_of(a.tasks@, x.subtasks@[i].task) == Some(m.subtasks@[i] as usize));
        assert(entry_of(b.tasks@, y.subtasks@[i].task) == Some(w.subtasks@[i] as usize));
        lemma_entries_stay(a, b, sharings, x.subtasks@[i].task);
    }
    assert(m.subtasks@ =~= w.subtasks@);
    lemma_same_work(m, w, lin);
}

/// A branch with gaps comes to the same work with gaps.
proof fn lemma_gapped_branch<M: PlanModel>(
    a: Recorder<M>,
    b: Recorder<M>,
    sharings: Seq<Sharing>,
    x: MethodProto<M>,
    y: MethodProto<M>,
    m: Method<M>,
    w: Method<M>,
)
    requires
        a.wf(),
        inserted(a, b, sharings),
        b.tasks@.len() <= u32::MAX,
        branch_pair(a, b, x, y, m, w),
        y != x,
        !x.unordered,
        x.edges@.len() == 0,
        x.subtasks@.len() > 0,
        forall|k: int|
            0 <= k < x.pause_positions@.len() ==> (#[trigger] x.pause_positions@[k])
                <= x.subtasks@.len(),
        w.subtasks@.len() <= u32::MAX,
        forall|i: int|
            0 <= i < m.subtasks@.len() ==> (#[trigger] m.subtasks@[i]) < a.tasks@.len(),
    ensures
        m.order is Total,
        w.order is Total,
        widened(method_work(m, 0), method_work(w, 0), a.tasks@.len() as u32),
{
    let n = a.tasks@.len();
    let gap = gap_member(a, b);
    assert forall|i: int| 0 <= i <= m.subtasks@.len() implies #[trigger] w.subtasks@[2 * i]
        == n as u32 by {
        assert((2 * i) % 2 == 0);
        assert(y.subtasks@[2 * i] == gap);
        assert(entry_of(b.tasks@, y.subtasks@[2 * i].task) == Some(w.subtasks@[2 * i] as usize));
        lemma_entries_stay(a, b, sharings, gap.task);
    }
    assert forall|i: int| 0 <= i < m.subtasks@.len() implies (#[trigger] m.subtasks@[i])
        == w.subtasks@[2 * i + 1] && m.subtasks@[i] != n as u32 by {
        assert((2 * i + 1) % 2 == 1 && (2 * i + 1) / 2 == i);
        assert(y.subtasks@[2 * i + 1] == x.subtasks@[i]);
        assert(entry_of(a.tasks@, x.subtasks@[i].task) == Some(m.subtasks@[i] as usize));
        assert(entry_of(b.tasks@, y.subtasks@[2 * i + 1].task) == Some(
            w.subtasks@[2 * i + 1] as usize,
        ));
        lemma_entries_stay(a, b, sharings, x.subtasks@[i].task);
    }
    lemma_pauses_carried(m, w);
    lemma_total_widened(m, w, n as u32, 0);
}

/// A branch's work, and its work after insertion.
proof fn lemma_branch_widened<M: PlanModel>(
    a: Recorder<M>,
    b: Recorder<M>,
    sharings: Seq<Sharing>,
    goals: Seq<GoalEntry<M>>,
    d: HtnDomain<M>,
    e: HtnDomain<M>,
    t: int,
    method: int,
    lin: nat,
)
    requires
        widens(a, b, sharings, goals, d, e),
        0 <= t < a.tasks@.len(),
        d.tasks@[t] is Compound,
        0 <= method < d.tasks@[t]->Compound_0.methods@.len(),
        has_order(d.tasks@[t]->Compound_0.methods@[method], lin),
    ensures
        e.tasks@[t] is Compound,
        method < e.tasks@[t]->Compound_0.methods@.len(),
        has_order(e.tasks@[t]->Compound_0.methods@[method], lin),
        e.tasks@[t]->Compound_0.methods@[method].preconditions
            == d.tasks@[t]->Compound_0.methods@[method].preconditions,
        widened(
            method_work(d.tasks@[t]->Compound_0.methods@[method], lin),
            method_work(e.tasks@[t]->Compound_0.methods@[method], lin),
            a.tasks@.len() as u32,
        ),
        known(a, method_work(d.tasks@[t]->Compound_0.methods@[method], lin)),
{
    let n = a.tasks@.len();
    lemma_branch_pair(a, b, sharings, goals, d, e, t, method);
    let m = d.tasks@[t]->Compound_0.methods@[method];
    let w = e.tasks@[t]->Compound_0.methods@[method];
    let x = a.tasks@[t].proto->methods@[method];
    let y = b.tasks@[t].proto->methods@[method];
    assert(d.tasks@[t].wf(d.tasks@.len(), d.slots()));
    assert(m.wf(d.tasks@.len(), d.slots()));
    assert(e.tasks@[t].wf(e.tasks@.len(), e.slots()));
    assert(w.wf(e.tasks@.len(), e.slots()));
    assert(e.tasks@.len() <= u32::MAX);
    assert forall|i: int| 0 <= i < m.subtasks@.len() implies (#[trigger] m.subtasks@[i]) < n by {
        assert(entry_of(a.tasks@, x.subtasks@[i].task) == Some(m.subtasks@[i] as usize));
        lemma_entry_found(a.tasks@, x.subtasks@[i].task, 0);
    }
    lemma_work_members(m, lin);
    let work = method_work(m, lin);
    assert forall|i: int| 0 <= i < work.len() implies ((#[trigger] work[i]) matches ResumeStep::Task(
        u,
    ) ==> u < n) by {
        if work[i] is Task {
            let k = choose|k: int|
                0 <= k < m.subtasks@.len() && m.subtasks@[k] == work[i]->Task_0;
            assert(m.subtasks@[k] < n);
        }
    }
    if y == x || x.unordered || x.edges@.len() > 0 || x.subtasks@.len() == 0 {
        lemma_kept_branch(a, b, sharings, x, y, m, w, lin);
        if work.contains(ResumeStep::Task(n as u32)) {
            let i = work.index_of(ResumeStep::Task(n as u32));
            assert(work[i] == ResumeStep::Task(n as u32));
        }
        lemma_widened_same(work, n as u32);
    } else {
        assert forall|k: int| 0 <= k < x.pause_positions@.len() implies (
        #[trigger] x.pause_positions@[k]) <= x.subtasks@.len() by {
            assert(a.tasks@[t].proto->methods@[method].pause_positions@[k] <= x.subtasks@.len());
        }
        lemma_gapped_branch(a, b, sharings, x, y, m, w);
    }
}

/// Whether work names recorded tasks alone.
spec fn known<M: PlanModel>(a: Recorder<M>, work: Seq<ResumeStep>) -> bool {
    forall|i: int|
        0 <= i < work.len() ==> ((#[trigger] work[i]) matches ResumeStep::Task(t) ==> t
            < a.tasks@.len())
}

/// Whether two branches have the same members and constraints.
spec fn same_constraints<M: PlanModel>(x: MethodProto<M>, y: MethodProto<M>) -> bool {
    &&& x.subtasks@ == y.subtasks@
    &&& x.unordered == y.unordered
    &&& x.edges@ == y.edges@
}

proof fn lemma_same_mask<M: PlanModel>(x: MethodProto<M>, y: MethodProto<M>, p: int, k: nat)
    requires
        same_constraints(x, y),
    ensures
        preds_mask(x, p, k) == preds_mask(y, p, k),
    decreases k,
{
    if k > 0 {
        lemma_same_mask(x, y, p, (k - 1) as nat);
    }
}

proof fn lemma_same_preds<M: PlanModel>(x: MethodProto<M>, y: MethodProto<M>)
    requires
        same_constraints(x, y),
    ensures
        preds_of(x) == preds_of(y),
{
    let n = x.subtasks@.len();
    assert forall|p: int| 0 <= p < n implies (#[trigger] preds_of(x)[p]) == preds_of(y)[p] by {
        lemma_same_mask(x, y, p, n);
    }
    assert(preds_of(x) =~= preds_of(y));
}

/// Methods with the same members in the same orders come to the same work.
proof fn lemma_same_work<M: PlanModel>(m: Method<M>, w: Method<M>, lin: nat)
    requires
        m.subtasks@ == w.subtasks@,
        m.pause_positions@ == w.pause_positions@,
        m.order is Total <==> w.order is Total,
        m.order matches SubtaskOrder::Partial { preds, orders, first } ==> w.order->preds@ == preds@
            && w.order->orders == orders,
    ensures
        method_work(m, lin) == method_work(w, lin),
{
    match m.order {
        SubtaskOrder::Total => {
            lemma_same_members(m, w, 0);
        },
        SubtaskOrder::Partial { preds, orders, first } => {
            lemma_same_ordered(m, w, crate::order::topo_orders(preds@)[lin as int], 0);
        },
    }
}

proof fn lemma_same_members<M: PlanModel>(m: Method<M>, w: Method<M>, pos: nat)
    requires
        m.subtasks@ == w.subtasks@,
        m.pause_positions@ == w.pause_positions@,
    ensures
        members_from(m, Seq::empty(), pos) == members_from(w, Seq::empty(), pos),
    decreases m.subtasks@.len() - pos,
{
    if pos < m.subtasks@.len() {
        lemma_same_members(m, w, pos + 1);
    }
}

proof fn lemma_same_ordered<M: PlanModel>(m: Method<M>, w: Method<M>, order: Seq<u8>, k: nat)
    requires
        m.subtasks@ == w.subtasks@,
    ensures
        crate::search::members_in_order(m, order, Seq::empty(), k)
            == crate::search::members_in_order(w, order, Seq::empty(), k),
    decreases order.len() - k,
{
    if k < order.len() {
        lemma_same_ordered(m, w, order, k + 1);
    }
}

/// A primitive task runs as it does without insertion.
proof fn lemma_same_step<M: PlanModel>(
    a: Recorder<M>,
    b: Recorder<M>,
    sharings: Seq<Sharing>,
    goals: Seq<GoalEntry<M>>,
    d: HtnDomain<M>,
    e: HtnDomain<M>,
    s: ModelState<M>,
    x: Seq<ResumeStep>,
    y: Seq<ResumeStep>,
    u: usize,
)
    requires
        widens(a, b, sharings, goals, d, e),
        known(a, x),
        x.len() > 0,
        y.len() > 0,
        x[0] == y[0],
        make_move(d, Position { state: s, work: x }, Move::Do(u)) is Some,
    ensures
        make_move(d, Position { state: s, work: x }, Move::Do(u))->Some_0.work == x.skip(1),
        make_move(e, Position { state: s, work: y }, Move::Do(u)) == Some(
            Position::<M::Component> {
                state: make_move(
                    d,
                    Position { state: s, work: x },
                    Move::Do(u),
                )->Some_0.state,
                work: y.skip(1),
            },
        ),
{
    let t = x[0]->Task_0 as int;
    assert(t < a.tasks@.len());
    assert(gapped_entry(a.tasks@[t], b.tasks@[t], gap_member(a, b)));
    assert(baked_task(a.tasks@, a.tasks@[t], d.tasks@[t]));
    assert(baked_task(b.tasks@, b.tasks@[t], e.tasks@[t]));
}

/// The same branch can be chosen with insertion, and leads to the same work with
/// gaps.
proof fn lemma_same_choice<M: PlanModel>(
    a: Recorder<M>,
    b: Recorder<M>,
    sharings: Seq<Sharing>,
    goals: Seq<GoalEntry<M>>,
    d: HtnDomain<M>,
    e: HtnDomain<M>,
    s: ModelState<M>,
    x: Seq<ResumeStep>,
    y: Seq<ResumeStep>,
    mv: Move,
) -> (wide: Seq<ResumeStep>)
    requires
        widens(a, b, sharings, goals, d, e),
        known(a, x),
        x.len() > 0,
        y.len() > 0,
        x[0] == y[0],
        widened(x.skip(1), y.skip(1), a.tasks@.len() as u32),
        mv is Choose,
        make_move(d, Position { state: s, work: x }, mv) is Some,
    ensures
        make_move(d, Position { state: s, work: x }, mv)->Some_0.state == s,
        make_move(e, Position { state: s, work: y }, mv) == Some(
            Position::<M::Component> { state: s, work: wide },
        ),
        widened(
            make_move(d, Position { state: s, work: x }, mv)->Some_0.work,
            wide,
            a.tasks@.len() as u32,
        ),
        known(a, make_move(d, Position { state: s, work: x }, mv)->Some_0.work),
{
    let n = a.tasks@.len();
    let next = make_move(d, Position { state: s, work: x }, mv)->Some_0;
    let method = mv->method as int;
    let lin = mv->lin;
    let t = x[0]->Task_0 as int;
    assert(t < n);
    let front = method_work(d.tasks@[t]->Compound_0.methods@[method], lin);
    assert(next.work == front + x.skip(1));
    lemma_branch_widened(a, b, sharings, goals, d, e, t, method, lin);
    let wider = method_work(e.tasks@[t]->Compound_0.methods@[method], lin);
    lemma_widened_joins(front, wider, x.skip(1), y.skip(1), n as u32);
    assert forall|i: int| 0 <= i < next.work.len() implies ((#[trigger] next.work[i])
        matches ResumeStep::Task(u) ==> u < n) by {
        if i < front.len() {
            assert(next.work[i] == front[i]);
        } else {
            assert(next.work[i] == x[i - front.len() + 1]);
        }
    }
    wider + y.skip(1)
}

/// The run of the widened work that declines every insertion, and where it stands
/// in the end.
proof fn lemma_declined<M: PlanModel>(
    a: Recorder<M>,
    b: Recorder<M>,
    sharings: Seq<Sharing>,
    goals: Seq<GoalEntry<M>>,
    d: HtnDomain<M>,
    e: HtnDomain<M>,
    s: ModelState<M>,
    x: Seq<ResumeStep>,
    y: Seq<ResumeStep>,
    moves: Seq<Move>,
    end: Position<M::Component>,
) -> (r: (Seq<Move>, Seq<ResumeStep>))
    requires
        widens(a, b, sharings, goals, d, e),
        play(d, Position { state: s, work: x }, moves) == Some(end),
        known(a, x),
        widened(x, y, a.tasks@.len() as u32),
    ensures
        play(e, Position { state: s, work: y }, r.0) == Some(
            Position::<M::Component> { state: end.state, work: r.1 },
        ),
        steps_of(r.0) == steps_of(moves),
        widened(end.work, r.1, a.tasks@.len() as u32),
        r.1.len() > 0 ==> r.1[0] != ResumeStep::Task(a.tasks@.len() as u32),
    decreases moves.len(), y.len(),
{
    let gap = a.tasks@.len() as u32;
    let at = Position { state: s, work: x };
    let wide = Position { state: s, work: y };
    if y.len() > 0 && y[0] == ResumeStep::Task(gap) {
        let (rest, left) = lemma_declined(a, b, sharings, goals, d, e, s, x, y.skip(1), moves, end);
        let mv = Move::Choose { method: 0, lin: 0 };
        lemma_stop_declines(a, b, sharings, goals, d, e, wide);
        lemma_prepend(e, wide, mv, rest);
        assert(Seq::<usize>::empty() + steps_of(rest) =~= steps_of(rest));
        return (seq![mv] + rest, left);
    }
    if moves.len() == 0 {
        return (Seq::empty(), y);
    }
    let mv = moves[0];
    assert(make_move(d, at, mv) is Some);
    let next = make_move(d, at, mv)->Some_0;
    assert(moves =~= seq![mv] + moves.skip(1));
    lemma_steps_front(mv, moves.skip(1));
    let target = match mv {
        Move::Do(u) => {
            lemma_same_step(a, b, sharings, goals, d, e, s, x, y, u);
            assert forall|i: int| 0 <= i < x.skip(1).len() implies ((#[trigger] x.skip(1)[i])
                matches ResumeStep::Task(u) ==> u < a.tasks@.len()) by {
                assert(x.skip(1)[i] == x[i + 1]);
            }
            y.skip(1)
        },
        Move::Choose { .. } => lemma_same_choice(a, b, sharings, goals, d, e, s, x, y, mv),
    };
    let (rest, left) = lemma_declined(
        a,
        b,
        sharings,
        goals,
        d,
        e,
        next.state,
        next.work,
        target,
        moves.skip(1),
        end,
    );
    lemma_prepend(e, wide, mv, rest);
    (seq![mv] + rest, left)
}

/// A move in front of a run.
proof fn lemma_prepend<M: PlanModel>(
    d: HtnDomain<M>,
    at: Position<M::Component>,
    mv: Move,
    rest: Seq<Move>,
)
    requires
        make_move(d, at, mv) is Some,
    ensures
        play(d, at, seq![mv] + rest) == play(d, make_move(d, at, mv)->Some_0, rest),
        steps_of(seq![mv] + rest) == (match mv {
            Move::Do(t) => seq![t],
            _ => Seq::empty(),
        }) + steps_of(rest),
{
    let run = seq![mv] + rest;
    assert(run[0] == mv);
    assert(run.skip(1) =~= rest);
    lemma_steps_front(mv, rest);
}

/// Choosing the first branch of the task in a gap passes the gap.
proof fn lemma_stop_declines<M: PlanModel>(
    a: Recorder<M>,
    b: Recorder<M>,
    sharings: Seq<Sharing>,
    goals: Seq<GoalEntry<M>>,
    d: HtnDomain<M>,
    e: HtnDomain<M>,
    at: Position<M::Component>,
)
    requires
        widens(a, b, sharings, goals, d, e),
        at.work.len() > 0,
        at.work[0] == ResumeStep::Task(a.tasks@.len() as u32),
    ensures
        make_move(e, at, Move::Choose { method: 0, lin: 0 }) == Some(
            Position { work: at.work.skip(1), ..at },
        ),
{
    let n = a.tasks@.len() as int;
    let gap = MemberProto {
        task: SubtaskRef::Synthetic(a.next_synthetic),
        name: b.tasks@[n].name,
        chained: true,
    };
    assert(e.tasks@.len() <= u32::MAX);
    assert(baked_task(b.tasks@, b.tasks@[n], e.tasks@[n]));
    let w = e.tasks@[n]->Compound_0.methods@[0];
    assert(baked_method(b.tasks@, b.tasks@[n].proto->methods@[0], w));
    assert(w.order is Total);
    assert(members_from(w, Seq::empty(), 0) =~= Seq::<Step>::empty());
    assert(method_work(w, 0) =~= Seq::<ResumeStep>::empty());
    assert(method_work(w, 0) + at.work.skip(1) =~= at.work.skip(1));
}

/// Task insertion keeps every run: a run from a task of the domain without
/// insertion has a counterpart in the domain with insertion that runs the same
/// steps, leads to the same state, and has the same work left but for the gaps in
/// it. Where the one has no work left, or stands at a pause, so does the other.
pub proof fn insertion_keeps_every_run<M: PlanModel>(
    a: Recorder<M>,
    b: Recorder<M>,
    sharings: Seq<Sharing>,
    goals: Seq<GoalEntry<M>>,
    d: HtnDomain<M>,
    e: HtnDomain<M>,
    s: ModelState<M>,
    t: u32,
    moves: Seq<Move>,
    end: Position<M::Component>,
)
    requires
        widens(a, b, sharings, goals, d, e),
        t < a.tasks@.len(),
        play(d, Position { state: s, work: seq![ResumeStep::Task(t)] }, moves) == Some(end),
    ensures
        exists|run: Seq<Move>, left: Seq<ResumeStep>|
            {
                &&& #[trigger] play(
                    e,
                    Position { state: s, work: seq![ResumeStep::Task(t)] },
                    run,
                ) == Some(Position::<M::Component> { state: end.state, work: left })
                &&& steps_of(run) == steps_of(moves)
                &&& #[trigger] widened(end.work, left, a.tasks@.len() as u32)
                &&& end.work.len() == 0 ==> left.len() == 0
                &&& end.work.len() > 0 ==> left.len() > 0 && left[0] == end.work[0]
            },
{
    let work = seq![ResumeStep::Task(t)];
    let gap = a.tasks@.len() as u32;
    assert(e.tasks@.len() <= u32::MAX);
    assert(!work.contains(ResumeStep::Task(gap)));
    lemma_widened_same(work, gap);
    let (run, left) = lemma_declined(a, b, sharings, goals, d, e, s, work, work, moves, end);
    assert(play(e, Position { state: s, work }, run) == Some(
        Position::<M::Component> { state: end.state, work: left },
    ));
    assert(widened(end.work, left, gap));
}

/// Task insertion keeps every plan: a run that decomposes a task of the domain
/// without insertion has a counterpart in the domain with insertion that runs the
/// same steps, and ends in the same state.
pub proof fn insertion_keeps_every_plan<M: PlanModel>(
    a: Recorder<M>,
    b: Recorder<M>,
    sharings: Seq<Sharing>,
    goals: Seq<GoalEntry<M>>,
    d: HtnDomain<M>,
    e: HtnDomain<M>,
    s: ModelState<M>,
    t: u32,
    moves: Seq<Move>,
    end: ModelState<M>,
)
    requires
        widens(a, b, sharings, goals, d, e),
        t < a.tasks@.len(),
        drains(d, s, seq![ResumeStep::Task(t)], moves, end),
    ensures
        exists|run: Seq<Move>| #[trigger]
            drains(e, s, seq![ResumeStep::Task(t)], run, end) && steps_of(run) == steps_of(moves),
{
    let work = seq![ResumeStep::Task(t)];
    let at = Position::<M::Component> { state: end, work: Seq::empty() };
    insertion_keeps_every_run(a, b, sharings, goals, d, e, s, t, moves, at);
    let (run, left) = choose|run: Seq<Move>, left: Seq<ResumeStep>|
        {
            &&& #[trigger] play(e, Position { state: s, work }, run) == Some(
                Position::<M::Component> { state: at.state, work: left },
            )
            &&& steps_of(run) == steps_of(moves)
            &&& #[trigger] widened(at.work, left, a.tasks@.len() as u32)
            &&& at.work.len() == 0 ==> left.len() == 0
            &&& at.work.len() > 0 ==> left.len() > 0 && left[0] == at.work[0]
        };
    assert(left =~= Seq::<ResumeStep>::empty());
    assert(drains(e, s, work, run, end) && steps_of(run) == steps_of(moves));
}

} // verus!
