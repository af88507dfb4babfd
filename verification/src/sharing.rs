//! What sharing is worth: a shared task runs at most once per plan.

use crate::building::{baked_method, baked_task, built, domain_of, GoalEntry};
use crate::domain::{HtnDomain, Method, PrimitiveTask, Task};
use crate::gtn::{
    candidates, gapped, gapped_entry, inserted, is_gap_task, is_insertion, is_mark, is_wrapper,
    marked, ordinals, rerouted_all, shared, shared_entry, sharing_of, Sharing,
};
use crate::model::{
    apply_all, effect_changes_its_writes_alone, effects_fit, lemma_apply_all_len, CompiledCheck,
    Effect, EffectBody, ModelState, PlanModel,
};
use crate::planner::ResumeStep;
use crate::recording::{entry_of, lemma_entry_found, MemberProto, Recorder, SubtaskRef, TaskEntry};
use crate::refinement::{lemma_play_push, lemma_work_members, method_work, play, Move, Position};
use crate::search::members_from;
use crate::state::{is_marked, SlotKey};
use vstd::prelude::*;

verus! {

/// Whether running a primitive sets the completion marker `id`.
pub open spec fn sets_mark<M: PlanModel>(p: PrimitiveTask<M>, slot: usize, id: usize) -> bool {
    exists|k: int|
        0 <= k < p.expected_effects@.len() && (#[trigger] p.expected_effects@[k]).body
            == (EffectBody::<M>::Mark { slot, id })
}

/// Whether a branch runs task `t` and nothing else, and only as long as one of
/// the completion markers that `t` sets is not set.
pub open spec fn guarded<M: PlanModel>(
    d: HtnDomain<M>,
    m: Method<M>,
    t: usize,
    slot: usize,
) -> bool {
    &&& m.subtasks@ == seq![t as u32]
    &&& m.order is Total
    &&& m.pause_positions@.len() == 0
    &&& exists|k: int, id: usize|
        0 <= k < m.preconditions@.len() && (#[trigger] m.preconditions@[k]).check == (
        CompiledCheck::<M>::SharedOpen { slot, id }) && #[trigger] sets_mark(
            d.tasks@[t as int]->Primitive_0,
            slot,
            id,
        )
}

/// Whether an effect leaves the completion markers in the slot set.
pub open spec fn keeps_marks<M: PlanModel>(e: Effect<M>, slot: usize) -> bool {
    e.body is Body ==> !e.writes@.contains(slot)
}

/// Whether every effect of a list leaves completion markers set.
pub open spec fn all_keep_marks<M: PlanModel>(es: Seq<Effect<M>>, slot: usize) -> bool {
    forall|k: int| 0 <= k < es.len() ==> keeps_marks(#[trigger] es[k], slot)
}

/// Whether a domain shares the primitive `t` through the completion markers in
/// `slot`: every branch with `t` among its members is guarded by one of the
/// markers that `t` sets, and nothing resets a marker.
pub open spec fn shares<M: PlanModel>(d: HtnDomain<M>, t: usize, slot: usize) -> bool {
    &&& t < d.tasks@.len()
    &&& slot < d.slots()
    &&& d.tasks@[t as int] is Primitive
    &&& forall|u: int, i: int|
        0 <= u < d.tasks@.len() && d.tasks@[u] is Compound && 0 <= i
            < d.tasks@[u]->Compound_0.methods@.len() && (
        #[trigger] d.tasks@[u]->Compound_0.methods@[i]).subtasks@.contains(t as u32) ==> guarded(
            d,
            d.tasks@[u]->Compound_0.methods@[i],
            t,
            slot,
        )
    &&& forall|u: int|
        0 <= u < d.tasks@.len() && (#[trigger] d.tasks@[u]) is Primitive ==> all_keep_marks(
            d.tasks@[u]->Primitive_0.effects@,
            slot,
        ) && all_keep_marks(d.tasks@[u]->Primitive_0.expected_effects@, slot)
}

/// How often a run runs task `t`.
pub open spec fn times_run(moves: Seq<Move>, t: usize) -> nat
    decreases moves.len(),
{
    if moves.len() == 0 {
        0
    } else {
        times_run(moves.drop_last(), t) + if moves.last() == Move::Do(t) {
            1nat
        } else {
            0nat
        }
    }
}

proof fn lemma_marks_kept<M: PlanModel>(
    es: Seq<Effect<M>>,
    s: ModelState<M>,
    slot: usize,
    id: int,
)
    requires
        effects_fit(es, s.len()),
        all_keep_marks(es, slot),
        slot < s.len(),
        s[slot as int] is Marks,
    ensures
        apply_all(es, s)[slot as int] is Marks,
        is_marked(s[slot as int], id) ==> is_marked(apply_all(es, s)[slot as int], id),
        (exists|k: int|
            0 <= k < es.len() && (#[trigger] es[k]).body == (EffectBody::<M>::Mark {
                slot,
                id: id as usize,
            }) && id == id as usize) ==> is_marked(apply_all(es, s)[slot as int], id),
    decreases es.len(),
{
    if es.len() > 0 {
        let front = es.drop_last();
        let e = es.last();
        assert forall|k: int| 0 <= k < front.len() implies keeps_marks(#[trigger] front[k], slot) by {
            assert(keeps_marks(es[k], slot));
        }
        assert forall|k: int| 0 <= k < front.len() implies (#[trigger] front[k]).wf(s.len()) by {
            assert(es[k].wf(s.len()));
        }
        lemma_marks_kept(front, s, slot, id);
        lemma_apply_all_len(front, s);
        let mid = apply_all(front, s);
        assert(es[es.len() - 1].wf(s.len()));
        assert(keeps_marks(es[es.len() - 1], slot));
        match e.body {
            EffectBody::Body(_) => {
                effect_changes_its_writes_alone(e, mid, slot as int);
            },
            EffectBody::Mark { slot: at, id: other } => {},
        }
        if exists|k: int|
            0 <= k < es.len() && (#[trigger] es[k]).body == (EffectBody::<M>::Mark {
                slot,
                id: id as usize,
            }) && id == id as usize {
            let k = choose|k: int|
                0 <= k < es.len() && (#[trigger] es[k]).body == (EffectBody::<M>::Mark {
                    slot,
                    id: id as usize,
                }) && id == id as usize;
            if k < front.len() {
                assert(front[k] == es[k]);
            }
        }
    }
}

/// Running a primitive keeps the markers that are set, and sets its own.
proof fn lemma_step_marks<M: PlanModel>(
    p: PrimitiveTask<M>,
    s: ModelState<M>,
    slot: usize,
    id: usize,
)
    requires
        p.wf(s.len()),
        all_keep_marks(p.effects@, slot),
        all_keep_marks(p.expected_effects@, slot),
        slot < s.len(),
        s[slot as int] is Marks,
    ensures
        p.after(s)[slot as int] is Marks,
        p.after(s).len() == s.len(),
        is_marked(s[slot as int], id as int) ==> is_marked(p.after(s)[slot as int], id as int),
        sets_mark(p, slot, id) ==> is_marked(p.after(s)[slot as int], id as int),
{
    lemma_marks_kept(p.effects@, s, slot, id as int);
    lemma_apply_all_len(p.effects@, s);
    let mid = apply_all(p.effects@, s);
    lemma_marks_kept(p.expected_effects@, mid, slot, id as int);
    crate::domain::lemma_after_len(p, s);
}

/// Whether all markers that task `t` sets are set.
spec fn all_set<M: PlanModel>(d: HtnDomain<M>, t: usize, slot: usize, s: ModelState<M>) -> bool {
    forall|id: usize| #[trigger]
        sets_mark(d.tasks@[t as int]->Primitive_0, slot, id) ==> is_marked(
            s[slot as int],
            id as int,
        )
}

/// Whether task `t` is queued nowhere but in front, and there only as long as one
/// of its markers is not set.
spec fn queued_once<M: PlanModel>(
    d: HtnDomain<M>,
    t: usize,
    slot: usize,
    at: Position<M::Component>,
) -> bool {
    &&& at.state.len() == d.slots()
    &&& at.state[slot as int] is Marks
    &&& forall|i: int| 0 < i < at.work.len() ==> #[trigger] at.work[i] != ResumeStep::Task(t as u32)
    &&& at.work.len() > 0 && at.work[0] == ResumeStep::Task(t as u32) ==> !all_set(
        d,
        t,
        slot,
        at.state,
    )
}

proof fn lemma_guarded_work<M: PlanModel>(d: HtnDomain<M>, m: Method<M>, t: usize, slot: usize, lin: nat)
    requires
        guarded(d, m, t, slot),
        crate::refinement::has_order(m, lin),
        m.order_wf(),
    ensures
        method_work(m, lin) == seq![ResumeStep::Task(t as u32)],
{
    let none: Seq<(usize, usize)> = Seq::empty();
    reveal_with_fuel(members_from, 2);
    assert(m.subtasks@[0] == t as u32);
    assert(members_from(m, none, 1).len() == 0);
    assert(members_from(m, none, 0).len() == 1);
    assert(method_work(m, lin) =~= seq![ResumeStep::Task(t as u32)]);
}

proof fn lemma_runs_once<M: PlanModel>(
    d: HtnDomain<M>,
    t: usize,
    slot: usize,
    at: Position<M::Component>,
    moves: Seq<Move>,
)
    requires
        d.wf(),
        shares(d, t, slot),
        at.state.len() == d.slots(),
        at.state[slot as int] is Marks,
        crate::refinement::known_work(d, at.work),
        forall|i: int| 0 <= i < at.work.len() ==> #[trigger] at.work[i] != ResumeStep::Task(
            t as u32,
        ),
        play(d, at, moves) is Some,
    ensures
        times_run(moves, t) <= 1,
        times_run(moves, t) == 1 ==> all_set(d, t, slot, play(d, at, moves)->Some_0.state),
        queued_once(d, t, slot, play(d, at, moves)->Some_0),
        crate::refinement::known_work(d, play(d, at, moves)->Some_0.work),
    decreases moves.len(),
{
    if moves.len() > 0 {
        let front = moves.drop_last();
        let mv = moves.last();
        assert(front.push(mv) =~= moves);
        lemma_play_push(d, at, front, mv);
        lemma_runs_once(d, t, slot, at, front);
        let mid = play(d, at, front)->Some_0;
        let end = play(d, at, moves)->Some_0;
        crate::refinement::lemma_next_known(d, mid, mv);
        let rest = mid.work.skip(1);
        assert forall|i: int| 0 <= i < rest.len() implies #[trigger] rest[i] != ResumeStep::Task(
            t as u32,
        ) by {
            assert(rest[i] == mid.work[i + 1]);
        }
        match mv {
            Move::Do(u) => {
                let p = d.tasks@[u as int]->Primitive_0;
                assert(mid.work[0] matches ResumeStep::Task(x) && x < d.tasks@.len());
                assert(d.tasks@[u as int].wf(d.tasks@.len(), d.slots()));
                assert forall|id: usize|
                    is_marked(mid.state[slot as int], id as int) || (u == t && sets_mark(
                        p,
                        slot,
                        id,
                    )) implies is_marked(#[trigger] end.state[slot as int], id as int) by {
                    lemma_step_marks(p, mid.state, slot, id);
                }
                lemma_step_marks(p, mid.state, slot, 0);
                assert(end.work =~= rest);
                if u == t {
                    assert(all_set(d, t, slot, end.state));
                } else if times_run(front, t) == 1 {
                    assert forall|id: usize| #[trigger]
                        sets_mark(d.tasks@[t as int]->Primitive_0, slot, id) implies is_marked(
                        end.state[slot as int],
                        id as int,
                    ) by {
                        assert(is_marked(mid.state[slot as int], id as int));
                        lemma_step_marks(p, mid.state, slot, id);
                    }
                }
            },
            Move::Choose { method, lin } => {
                let u = mid.work[0]->Task_0;
                let c = d.tasks@[u as int]->Compound_0;
                let m = c.methods@[method as int];
                assert(d.tasks@[u as int].wf(d.tasks@.len(), d.slots()));
                assert(m.wf(d.tasks@.len(), d.slots()));
                let added = method_work(m, lin);
                assert(end.work == added + rest);
                if m.subtasks@.contains(t as u32) {
                    assert(d.tasks@[u as int]->Compound_0.methods@[method as int] == m);
                    assert(guarded(d, m, t, slot));
                    lemma_guarded_work(d, m, t, slot, lin);
                    let (k, id) = choose|k: int, id: usize|
                        0 <= k < m.preconditions@.len() && (#[trigger] m.preconditions@[k]).check
                            == (CompiledCheck::<M>::SharedOpen { slot, id }) && #[trigger] sets_mark(
                            d.tasks@[t as int]->Primitive_0,
                            slot,
                            id,
                        );
                    assert(m.preconditions@[k].holds(mid.state));
                    assert(!is_marked(end.state[slot as int], id as int));
                } else {
                    lemma_work_members(m, lin);
                    assert forall|i: int| 0 <= i < end.work.len() implies #[trigger] end.work[i]
                        != ResumeStep::Task(t as u32) by {
                        if i < added.len() {
                            assert(end.work[i] == added[i]);
                        } else {
                            assert(end.work[i] == rest[i - added.len()]);
                        }
                    }
                }
            },
        }
    }
}

/// A shared task runs at most once: no run of a domain that shares it runs it
/// twice, whatever work the run starts from, as long as that work does not name
/// the task itself.
pub proof fn shared_tasks_run_at_most_once<M: PlanModel>(
    d: HtnDomain<M>,
    t: usize,
    slot: usize,
    at: Position<M::Component>,
    moves: Seq<Move>,
)
    requires
        d.wf(),
        shares(d, t, slot),
        at.state.len() == d.slots(),
        at.state[slot as int] is Marks,
        crate::refinement::known_work(d, at.work),
        forall|i: int| 0 <= i < at.work.len() ==> #[trigger] at.work[i] != ResumeStep::Task(
            t as u32,
        ),
        play(d, at, moves) is Some,
    ensures
        times_run(moves, t) <= 1,
{
    lemma_runs_once(d, t, slot, at, moves);
}

/// Whether a recording was compiled with its requests to share, and then, where
/// it inserts, with insertion.
pub open spec fn compiled_in<M: PlanModel>(
    rec: Recorder<M>,
    mid: Recorder<M>,
    sharings: Seq<Sharing>,
    end: Recorder<M>,
) -> bool {
    &&& shared(rec, mid, sharings)
    &&& end == mid || inserted(mid, end, sharings)
}

proof fn lemma_last_sharing(sharings: Seq<Sharing>, r: SubtaskRef, j: int, k: nat)
    requires
        0 <= j < k <= sharings.len(),
        SubtaskRef::Fn(sharings[j].task) == r,
    ensures
        sharing_of(sharings, r, k) matches Some(i) && 0 <= i < k,
    decreases k,
{
    if SubtaskRef::Fn(sharings[k - 1].task) != r {
        lemma_last_sharing(sharings, r, j, (k - 1) as nat);
    }
}

proof fn lemma_sharing_in_range(sharings: Seq<Sharing>, r: SubtaskRef, k: nat)
    requires
        k <= sharings.len(),
    ensures
        sharing_of(sharings, r, k) matches Some(i) ==> 0 <= i < k,
    decreases k,
{
    if k > 0 && SubtaskRef::Fn(sharings[k - 1].task) != r {
        lemma_sharing_in_range(sharings, r, (k - 1) as nat);
    }
}

proof fn lemma_ordinal_listed(shares: Seq<u64>, r: SubtaskRef, j: int, k: nat)
    requires
        0 <= j < k <= shares.len(),
        SubtaskRef::Fn(shares[j]) == r,
    ensures
        ordinals(shares, r, k).contains(j as nat),
    decreases k,
{
    let all = ordinals(shares, r, k);
    if j == k - 1 {
        assert(all[all.len() - 1] == j as nat);
    } else {
        lemma_ordinal_listed(shares, r, j, (k - 1) as nat);
        let before = ordinals(shares, r, (k - 1) as nat);
        let i = before.index_of(j as nat);
        assert(all[i] == j as nat);
    }
}

/// A candidate for insertion is no shared function: it is the wrapper.
proof fn lemma_candidate_not_shared<M: PlanModel>(
    tasks: Seq<TaskEntry<M>>,
    insertables: Seq<u64>,
    sharings: Seq<Sharing>,
    j: int,
    k: nat,
)
    requires
        0 <= j < sharings.len(),
        k <= insertables.len(),
        forall|i: int| 0 <= i < sharings.len() ==> (#[trigger] sharings[i]).wrapper is Synthetic,
    ensures
        forall|i: int|
            0 <= i < candidates(tasks, insertables, sharings, k).len() ==> (
            #[trigger] candidates(tasks, insertables, sharings, k)[i]).0 != SubtaskRef::Fn(
                sharings[j].task,
            ),
    decreases k,
{
    if k > 0 {
        lemma_candidate_not_shared(tasks, insertables, sharings, j, (k - 1) as nat);
        let before = candidates(tasks, insertables, sharings, (k - 1) as nat);
        let all = candidates(tasks, insertables, sharings, k);
        let r = SubtaskRef::Fn(insertables[k - 1]);
        lemma_sharing_in_range(sharings, r, sharings.len());
        if r == SubtaskRef::Fn(sharings[j].task) {
            lemma_last_sharing(sharings, r, j, sharings.len());
        }
        assert forall|i: int| 0 <= i < all.len() implies (#[trigger] all[i]).0 != SubtaskRef::Fn(
            sharings[j].task,
        ) by {
            if i < before.len() {
                assert(all[i] == before[i]);
            }
        }
    }
}

/// Whether a recording has nothing made up in it yet.
pub open spec fn unshared<M: PlanModel>(rec: Recorder<M>) -> bool {
    &&& rec.wf()
    &&& forall|i: int| 0 <= i < rec.tasks@.len() ==> (#[trigger] rec.tasks@[i]).id is Fn
    &&& crate::state::slot_of(rec.registry.slots@, SlotKey::SharedMarks) is None
    &&& rec.registry.slots@.len() < usize::MAX
    &&& rec.tasks@.len() + rec.shares@.len() < usize::MAX
    &&& rec.next_synthetic + rec.shares@.len() < u32::MAX
    &&& crate::gtn::first_share_error(rec.tasks@, rec.shares@, 0) is None
}

/// After compilation, members refer to a shared function in its wrappers alone.
proof fn lemma_referring_member<M: PlanModel>(
    rec: Recorder<M>,
    mid: Recorder<M>,
    sharings: Seq<Sharing>,
    end: Recorder<M>,
    j: int,
    u: int,
    i: int,
    k: int,
)
    requires
        unshared(rec),
        compiled_in(rec, mid, sharings, end),
        0 <= j < rec.shares@.len(),
        0 <= u < end.tasks@.len(),
        end.tasks@[u].proto is Compound,
        0 <= i < end.tasks@[u].proto->methods@.len(),
        0 <= k < end.tasks@[u].proto->methods@[i].subtasks@.len(),
        end.tasks@[u].proto->methods@[i].subtasks@[k].task == SubtaskRef::Fn(rec.shares@[j]),
    ensures
        rec.tasks@.len() <= u < rec.tasks@.len() + rec.shares@.len(),
        rec.shares@[u - rec.tasks@.len()] == rec.shares@[j],
        i == 1,
        end.tasks@[u] == mid.tasks@[u],
{
    let n = rec.tasks@.len();
    let r = SubtaskRef::Fn(rec.shares@[j]);
    let slot = crate::state::registered_at(rec.registry.slots@, SlotKey::SharedMarks);
    assert(sharings[j].task == rec.shares@[j]);
    assert forall|x: int| 0 <= x < sharings.len() implies (#[trigger] sharings[x]).wrapper
        is Synthetic by {}
    if u < mid.tasks@.len() && end != mid {
        let gap = MemberProto {
            task: SubtaskRef::Synthetic(mid.next_synthetic),
            name: end.tasks@[mid.tasks@.len() as int].name,
            chained: true,
        };
        assert(gapped_entry(mid.tasks@[u], end.tasks@[u], gap));
    }
    if u < n {
        assert(rec.tasks@[u].id is Fn);
        assert(shared_entry(rec.tasks@[u], mid.tasks@[u], rec.shares@, slot, sharings));
        assert(mid.tasks@[u].proto is Compound);
        assert(rec.tasks@[u].proto is Compound);
        let before = rec.tasks@[u].proto->methods@[i];
        let routed = mid.tasks@[u].proto->methods@[i];
        assert(routed.subtasks@ == rerouted_all(before.subtasks@, sharings));
        assert forall|x: int| 0 <= x < routed.subtasks@.len() implies (
        #[trigger] routed.subtasks@[x]).task != r by {
            let member = before.subtasks@[x];
            lemma_sharing_in_range(sharings, member.task, sharings.len());
            if member.task == r {
                lemma_last_sharing(sharings, r, j, sharings.len());
            }
        }
        if end != mid {
            let gap = MemberProto {
                task: SubtaskRef::Synthetic(mid.next_synthetic),
                name: end.tasks@[mid.tasks@.len() as int].name,
                chained: true,
            };
            let last = end.tasks@[u].proto->methods@[i];
            assert(last.subtasks@ == gapped(routed, gap));
            if k % 2 == 1 {
                assert(routed.subtasks@[k / 2].task != r);
            }
        }
    } else if u < mid.tasks@.len() {
        let w = u - n;
        assert(is_wrapper(
            mid.tasks@[n + w],
            rec.tasks@[entry_of(rec.tasks@, SubtaskRef::Fn(rec.shares@[w]))->Some_0 as int],
            SubtaskRef::Synthetic((rec.next_synthetic + w) as u32),
            w as nat,
            slot,
        ));
        assert(mid.tasks@[u].id is Synthetic);
        let orig = rec.tasks@[entry_of(
            rec.tasks@,
            SubtaskRef::Fn(rec.shares@[w]),
        )->Some_0 as int];
        lemma_shared_is_recorded(rec, w);
        let m = mid.tasks@[u].proto->methods@[1];
        assert(m.subtasks@[0].task == orig.id);
    } else {
        let gap = MemberProto {
            task: SubtaskRef::Synthetic(mid.next_synthetic),
            name: end.tasks@[mid.tasks@.len() as int].name,
            chained: true,
        };
        let offered = candidates(mid.tasks@, mid.insertables@, sharings, mid.insertables@.len());
        assert(is_gap_task(end.tasks@[u], offered, gap));
        lemma_candidate_not_shared(
            mid.tasks@,
            mid.insertables@,
            sharings,
            j,
            mid.insertables@.len(),
        );
        let m = end.tasks@[u].proto->methods@[i];
        if i > 0 {
            assert(is_insertion(end.tasks@[u].proto->methods@[(i - 1) + 1], offered[i - 1], gap));
            assert(offered[i - 1].0 != r);
            assert(m.subtasks@[0].task == offered[i - 1].0);
            assert(m.subtasks@[1] == gap);
        }
    }
}

proof fn lemma_no_share_error<M: PlanModel>(
    tasks: Seq<TaskEntry<M>>,
    shares: Seq<u64>,
    k: nat,
    j: int,
)
    requires
        crate::gtn::first_share_error(tasks, shares, k) is None,
        k <= j < shares.len(),
    ensures
        crate::gtn::share_error(tasks, shares[j]) is None,
    decreases shares.len() - k,
{
    if k < j {
        lemma_no_share_error(tasks, shares, k + 1, j);
    }
}

/// A shared function is recorded, as a primitive.
proof fn lemma_shared_is_recorded<M: PlanModel>(rec: Recorder<M>, j: int)
    requires
        unshared(rec),
        0 <= j < rec.shares@.len(),
    ensures
        entry_of(rec.tasks@, SubtaskRef::Fn(rec.shares@[j])) matches Some(t) && t
            < rec.tasks@.len() && rec.tasks@[t as int].id == SubtaskRef::Fn(rec.shares@[j])
            && rec.tasks@[t as int].proto is Primitive,
{
    lemma_no_share_error(rec.tasks@, rec.shares@, 0, j);
    lemma_entry_found(rec.tasks@, SubtaskRef::Fn(rec.shares@[j]), 0);
}

/// A recorded primitive, compiled and baked.
proof fn lemma_baked_primitive<M: PlanModel>(
    rec: Recorder<M>,
    mid: Recorder<M>,
    sharings: Seq<Sharing>,
    end: Recorder<M>,
    goals: Seq<GoalEntry<M>>,
    d: HtnDomain<M>,
    u: int,
)
    requires
        unshared(rec),
        compiled_in(rec, mid, sharings, end),
        domain_of(end, goals, d),
        0 <= u < d.tasks@.len(),
        d.tasks@[u] is Primitive,
    ensures
        u < rec.tasks@.len(),
        all_keep_marks(
            d.tasks@[u]->Primitive_0.effects@,
            rec.registry.slots@.len() as usize,
        ),
        all_keep_marks(
            d.tasks@[u]->Primitive_0.expected_effects@,
            rec.registry.slots@.len() as usize,
        ),
{
    let n = rec.tasks@.len();
    let slot = crate::state::registered_at(rec.registry.slots@, SlotKey::SharedMarks);
    if u < end.tasks@.len() {
        assert(baked_task(end.tasks@, end.tasks@[u], d.tasks@[u]));
        assert(end.tasks@[u].proto is Primitive);
        if u < mid.tasks@.len() && end != mid {
            let gap = MemberProto {
                task: SubtaskRef::Synthetic(mid.next_synthetic),
                name: end.tasks@[mid.tasks@.len() as int].name,
                chained: true,
            };
            assert(gapped_entry(mid.tasks@[u], end.tasks@[u], gap));
        }
        if u < n {
            assert(shared_entry(rec.tasks@[u], mid.tasks@[u], rec.shares@, slot, sharings));
            assert(marked(rec.tasks@[u], mid.tasks@[u], rec.shares@, rec.shares@.len(), slot));
            assert(crate::recording::proto_fits(
                rec.tasks@[u].proto,
                rec.registry.slots@.len(),
            ));
            let p = d.tasks@[u]->Primitive_0;
            let old_effects = rec.tasks@[u].proto->effects@;
            let old_expected = rec.tasks@[u].proto->expected_effects@;
            assert forall|k: int| 0 <= k < p.effects@.len() implies keeps_marks(
                #[trigger] p.effects@[k],
                slot,
            ) by {
                assert(old_effects[k].wf(rec.registry.slots@.len()));
            }
            assert forall|k: int| 0 <= k < p.expected_effects@.len() implies keeps_marks(
                #[trigger] p.expected_effects@[k],
                slot,
            ) by {
                if k < old_expected.len() {
                    assert(p.expected_effects@[k] == old_expected[k]);
                    assert(old_expected[k].wf(rec.registry.slots@.len()));
                } else {
                    let ids = ordinals(rec.shares@, rec.tasks@[u].id, rec.shares@.len());
                    let x = k - old_expected.len();
                    assert(is_mark(p.expected_effects@[old_expected.len() + x], slot, ids[x]));
                }
            }
        } else if u < mid.tasks@.len() {
            let w = u - n;
            assert(is_wrapper(
                mid.tasks@[n + w],
                rec.tasks@[entry_of(rec.tasks@, SubtaskRef::Fn(rec.shares@[w]))->Some_0 as int],
                SubtaskRef::Synthetic((rec.next_synthetic + w) as u32),
                w as nat,
                slot,
            ));
        }
    } else {
        assert(d.tasks@[end.tasks@.len() + (u - end.tasks@.len())] is Goal);
    }
}

/// Building a domain shares what was asked to be shared: every task function with
/// a request comes out as a primitive that the built domain shares, so it runs at
/// most once per plan.
pub proof fn requested_tasks_are_shared<M: PlanModel>(
    rec: Recorder<M>,
    mid: Recorder<M>,
    sharings: Seq<Sharing>,
    end: Recorder<M>,
    goals: Seq<GoalEntry<M>>,
    d: HtnDomain<M>,
    j: int,
)
    requires
        unshared(rec),
        compiled_in(rec, mid, sharings, end),
        domain_of(end, goals, d),
        0 <= j < rec.shares@.len(),
    ensures
        shares(
            d,
            entry_of(rec.tasks@, SubtaskRef::Fn(rec.shares@[j]))->Some_0,
            rec.registry.slots@.len() as usize,
        ),
{
    let n = rec.tasks@.len();
    let slot = rec.registry.slots@.len() as usize;
    let r = SubtaskRef::Fn(rec.shares@[j]);
    lemma_shared_is_recorded(rec, j);
    let t = entry_of(rec.tasks@, r)->Some_0;
    assert(shared_entry(rec.tasks@[t as int], mid.tasks@[t as int], rec.shares@, slot, sharings));
    if end != mid {
        let gap = MemberProto {
            task: SubtaskRef::Synthetic(mid.next_synthetic),
            name: end.tasks@[mid.tasks@.len() as int].name,
            chained: true,
        };
        assert(gapped_entry(mid.tasks@[t as int], end.tasks@[t as int], gap));
    }
    assert(end.tasks@[t as int] == mid.tasks@[t as int]);
    assert(end.tasks@[t as int].id == r);
    assert(baked_task(end.tasks@, end.tasks@[t as int], d.tasks@[t as int]));
    assert forall|u: int| 0 <= u < d.tasks@.len() && (#[trigger] d.tasks@[u]) is Primitive implies all_keep_marks(
        d.tasks@[u]->Primitive_0.effects@,
        slot,
    ) && all_keep_marks(d.tasks@[u]->Primitive_0.expected_effects@, slot) by {
        lemma_baked_primitive(rec, mid, sharings, end, goals, d, u);
    }
    assert forall|u: int, i: int|
        0 <= u < d.tasks@.len() && d.tasks@[u] is Compound && 0 <= i
            < d.tasks@[u]->Compound_0.methods@.len() && (
        #[trigger] d.tasks@[u]->Compound_0.methods@[i]).subtasks@.contains(
            t as u32,
        ) implies guarded(d, d.tasks@[u]->Compound_0.methods@[i], t, slot) by {
        let m = d.tasks@[u]->Compound_0.methods@[i];
        if u >= end.tasks@.len() {
            assert(d.tasks@[end.tasks@.len() + (u - end.tasks@.len())] is Goal);
        }
        assert(baked_task(end.tasks@, end.tasks@[u], d.tasks@[u]));
        let proto = end.tasks@[u].proto->methods@[i];
        assert(baked_method(end.tasks@, proto, m));
        let k = m.subtasks@.index_of(t as u32);
        assert(m.subtasks@[k] == t as u32);
        assert(entry_of(end.tasks@, proto.subtasks@[k].task) == Some(m.subtasks@[k] as usize));
        lemma_entry_found(end.tasks@, proto.subtasks@[k].task, 0);
        assert(proto.subtasks@[k].task == r);
        lemma_referring_member(rec, mid, sharings, end, j, u, i, k);
        let w = u - n;
        assert(is_wrapper(
            mid.tasks@[n + w],
            rec.tasks@[entry_of(rec.tasks@, SubtaskRef::Fn(rec.shares@[w]))->Some_0 as int],
            SubtaskRef::Synthetic((rec.next_synthetic + w) as u32),
            w as nat,
            slot,
        ));
        assert(m.subtasks@ =~= seq![t as u32]);
        lemma_ordinal_listed(rec.shares@, r, w, rec.shares@.len());
        let ids = ordinals(rec.shares@, r, rec.shares@.len());
        let x = ids.index_of(w as nat);
        assert(ids[x] == w as nat);
        let old_expected = rec.tasks@[t as int].proto->expected_effects@;
        let p = d.tasks@[t as int]->Primitive_0;
        assert(is_mark(p.expected_effects@[old_expected.len() + x], slot, ids[x]));
        assert(sets_mark(p, slot, w as usize));
        assert(m.preconditions@[0].check == (CompiledCheck::<M>::SharedOpen {
            slot,
            id: w as usize,
        }));
    }
}

} // verus!
