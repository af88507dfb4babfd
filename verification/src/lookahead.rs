//! Look-ahead pruning for the forward planner.
//!
//! Before the planner commits to a method, a linear sweep over that method's
//! subtask sequence tells, without decomposing anything, which refinements can
//! possibly succeed:
//!
//! - **Dead end**: a primitive's preconditions definitely fail, a compound task
//!   has no method that can possibly apply, a task has no finite refinement,
//!   or the sequence's minimum yield does not fit the remaining step budget, all
//!   under an *optimistic* state.
//! - **Inevitable refinement (pin)**: a compound task of the sequence has
//!   exactly one method that can possibly apply.
//!
//! The optimistic state is the current state plus a set of *unknown* slots:
//! compound tasks contribute what they may write, primitives what they write.
//! Preconditions on known slots are evaluated exactly; those that touch an
//! unknown slot are "maybe" and never prune.

use crate::domain::{lemma_after_len, CompoundTask, HtnDomain, PrimitiveTask, Task};
use crate::model::{
    all_fit, lemma_apply_all_frame, lemma_apply_all_len, precondition_depends_on_its_reads,
    some_writes, Effect, ModelState, PlanModel, Precondition,
};
use crate::state::{FieldSet, PlanState, StateView};
use vstd::prelude::*;

verus! {

/// The verdict of one look-ahead sweep.
#[derive(Debug)]
pub enum Lookahead {
    /// The sequence can possibly succeed. Each pin is a position in the swept
    /// sequence and the one method of the task there that can possibly apply.
    Refine {
        /// The inevitable refinements, by ascending position.
        pins: Vec<(usize, usize)>,
    },
    /// No refinement of the sequence can succeed from the current state within
    /// the budget.
    DeadEnd,
}

/// How much analysis one look-ahead sweep performs.
#[derive(Debug, Clone, Copy, PartialEq, Eq, Structural)]
pub enum SweepDepth {
    /// Compound-survivor checks (dead ends, pins, optimistic propagation),
    /// primitive-precondition checks, budget refutation.
    Full,
    /// Budget refutation and primitive-precondition checks. Compound tasks are
    /// not analysed, so nothing is known of the state behind one, and
    /// preconditions of primitives behind one are not checked.
    RefutationOnly,
}

/// Whether a precondition definitely fails: it reads only known slots, and does
/// not hold of their values.
pub open spec fn definitely_false<M: PlanModel>(
    c: Precondition<M>,
    s: ModelState<M>,
    unknown: Set<int>,
) -> bool {
    &&& forall|i: int| 0 <= i < c.reads@.len() ==> !unknown.contains(#[trigger] c.reads@[i] as int)
    &&& !c.holds(s)
}

/// Whether some precondition of a list definitely fails.
pub open spec fn refuted<M: PlanModel>(
    ps: Seq<Precondition<M>>,
    s: ModelState<M>,
    unknown: Set<int>,
) -> bool {
    exists|i: int| 0 <= i < ps.len() && definitely_false(#[trigger] ps[i], s, unknown)
}

/// The indices below `k` of the methods that can possibly apply, ascending.
pub open spec fn surviving_below<M: PlanModel>(
    c: CompoundTask<M>,
    s: ModelState<M>,
    unknown: Set<int>,
    k: nat,
) -> Seq<usize>
    decreases k,
{
    if k == 0 {
        Seq::empty()
    } else if refuted(c.methods@[k - 1].preconditions@, s, unknown) {
        surviving_below(c, s, unknown, (k - 1) as nat)
    } else {
        surviving_below(c, s, unknown, (k - 1) as nat).push((k - 1) as usize)
    }
}

/// The indices of the methods that can possibly apply, ascending.
pub open spec fn surviving<M: PlanModel>(
    c: CompoundTask<M>,
    s: ModelState<M>,
    unknown: Set<int>,
) -> Seq<usize> {
    surviving_below(c, s, unknown, c.methods@.len())
}

/// The slots that a primitive writes, in earnest or as expected.
pub open spec fn written<M: PlanModel>(p: PrimitiveTask<M>) -> Set<int> {
    Set::new(|f: int| some_writes(p.effects@, f) || some_writes(p.expected_effects@, f))
}

/// The slots that one of the listed methods may write.
pub open spec fn may_write<M: PlanModel>(c: CompoundTask<M>, methods: Seq<usize>) -> Set<int> {
    Set::new(
        |f: int|
            exists|k: int|
                0 <= k < methods.len() && c.methods@[#[trigger] methods[k] as int].possible_writes.has(
                    f,
                ),
    )
}

/// The slots that one of the first `k` tasks of a sequence may write.
pub open spec fn set_writes<M: PlanModel>(d: HtnDomain<M>, seq: Seq<u32>, k: nat) -> Set<int> {
    Set::new(
        |f: int|
            exists|j: int|
                0 <= j < k && d.summaries@[#[trigger] seq[j] as int].possible_writes.has(f),
    )
}

/// What a sweep knows when it reaches a position.
pub struct Sweep<C> {
    /// The state, exact on known slots.
    pub state: StateView<C>,
    /// The slots whose values are not known.
    pub unknown: Set<int>,
    /// Lower bound on the steps that the sequence needs so far.
    pub steps: nat,
    /// Whether nothing is known of the state any more.
    pub blind: bool,
    /// The pins found so far.
    pub pins: Seq<(usize, usize)>,
}

/// Sum of two lower bounds, capped where it no longer fits a machine word.
pub open spec fn capped_sum(a: nat, b: nat) -> nat {
    if a + b >= usize::MAX {
        usize::MAX as nat
    } else {
        a + b
    }
}

/// The rest of a sweep from position `k`: the pins found along the sequence,
/// or `None` for a dead end.
pub open spec fn sweep_from<M: PlanModel>(
    d: HtnDomain<M>,
    seq: Seq<u32>,
    k: nat,
    sw: Sweep<M::Component>,
    budget: nat,
    set_semantics: bool,
    depth: SweepDepth,
) -> Option<Seq<(usize, usize)>>
    decreases seq.len() - k,
{
    if k >= seq.len() {
        Some(sw.pins)
    } else {
        let t = seq[k as int] as int;
        let steps = capped_sum(sw.steps, d.summaries@[t].min_yield as nat);
        if steps > budget || !d.summaries@[t].terminating {
            None
        } else {
            match d.tasks@[t] {
                Task::Primitive(p) => {
                    if !sw.blind && refuted(p.preconditions@, sw.state, sw.unknown) {
                        None
                    } else if set_semantics || k + 1 >= seq.len() {
                        sweep_from(
                            d,
                            seq,
                            k + 1,
                            Sweep { steps, ..sw },
                            budget,
                            set_semantics,
                            depth,
                        )
                    } else {
                        sweep_from(
                            d,
                            seq,
                            k + 1,
                            Sweep {
                                state: p.after(sw.state),
                                unknown: sw.unknown.union(written(p)),
                                steps,
                                ..sw
                            },
                            budget,
                            set_semantics,
                            depth,
                        )
                    }
                },
                Task::Compound(c) => {
                    if depth is RefutationOnly {
                        sweep_from(
                            d,
                            seq,
                            k + 1,
                            Sweep { steps, blind: sw.blind || !set_semantics, ..sw },
                            budget,
                            set_semantics,
                            depth,
                        )
                    } else {
                        let survivors = surviving(c, sw.state, sw.unknown);
                        if survivors.len() == 0 {
                            None
                        } else {
                            sweep_from(
                                d,
                                seq,
                                k + 1,
                                Sweep {
                                    unknown: sw.unknown.union(may_write(c, survivors)),
                                    steps,
                                    pins: if survivors.len() == 1 {
                                        sw.pins.push((k as usize, survivors[0]))
                                    } else {
                                        sw.pins
                                    },
                                    ..sw
                                },
                                budget,
                                set_semantics,
                                depth,
                            )
                        }
                    }
                },
                Task::Goal(_) => Some(sw.pins),
            }
        }
    }
}

/// What a sweep knows at the start: everything, unless the members run in an
/// order that the search picks: then whatever one of them may write is unknown.
pub open spec fn sweep_start<M: PlanModel>(
    d: HtnDomain<M>,
    seq: Seq<u32>,
    s: ModelState<M>,
    set_semantics: bool,
) -> Sweep<M::Component> {
    Sweep {
        state: s,
        unknown: if set_semantics {
            set_writes(d, seq, seq.len())
        } else {
            Set::empty()
        },
        steps: 0,
        blind: false,
        pins: Seq::empty(),
    }
}

/// The outcome of a sweep: its pins, or `None` for a dead end.
pub open spec fn swept<M: PlanModel>(
    d: HtnDomain<M>,
    s: ModelState<M>,
    seq: Seq<u32>,
    budget: nat,
    set_semantics: bool,
    depth: SweepDepth,
) -> Option<Seq<(usize, usize)>> {
    sweep_from(d, seq, 0, sweep_start(d, seq, s, set_semantics), budget, set_semantics, depth)
}

impl<M: PlanModel> HtnDomain<M> {
    /// Whether the summaries are in place: one per task, over the domain's
    /// slots, and every method's write sets over the same slots.
    pub open spec fn baked(&self) -> bool {
        &&& self.summaries@.len() == self.tasks@.len()
        &&& forall|i: int|
            0 <= i < self.summaries@.len() ==> (#[trigger] self.summaries@[i]).possible_writes.universe()
                == self.slots()
        &&& forall|i: int, j: int|
            0 <= i < self.tasks@.len() && self.tasks@[i] is Compound && 0 <= j
                < self.tasks@[i]->Compound_0.methods@.len() ==> (
            #[trigger] self.tasks@[i]->Compound_0.methods@[j]).possible_writes.universe()
                == self.slots()
    }
}

/// Whether an exec set holds exactly the slots of `s`.
spec fn matches(set: FieldSet, s: Set<int>) -> bool {
    forall|f: int| #[trigger] set.has(f) == s.contains(f)
}

/// Whether a precondition definitely fails.
fn check_definitely_false<M: PlanModel>(
    c: &Precondition<M>,
    state: &PlanState<M::Component>,
    unknown: &FieldSet,
    Ghost(set): Ghost<Set<int>>,
) -> (b: bool)
    requires
        c.wf(state@.len()),
        matches(*unknown, set),
    ensures
        b == definitely_false(*c, state@, set),
{
    for i in 0..c.reads.len()
        invariant
            matches(*unknown, set),
            forall|k: int| 0 <= k < i ==> !set.contains(#[trigger] c.reads@[k] as int),
    {
        if unknown.contains(c.reads[i]) {
            assert(set.contains(c.reads@[i as int] as int));
            return false;
        }
    }
    !c.evaluate(state)
}

/// Whether some precondition of a list definitely fails.
fn check_refuted<M: PlanModel>(
    ps: &Vec<Precondition<M>>,
    state: &PlanState<M::Component>,
    unknown: &FieldSet,
    Ghost(set): Ghost<Set<int>>,
) -> (b: bool)
    requires
        all_fit(ps@, state@.len()),
        matches(*unknown, set),
    ensures
        b == refuted(ps@, state@, set),
{
    for i in 0..ps.len()
        invariant
            all_fit(ps@, state@.len()),
            matches(*unknown, set),
            forall|k: int| 0 <= k < i ==> !definitely_false(#[trigger] ps@[k], state@, set),
    {
        if check_definitely_false(&ps[i], state, unknown, Ghost(set)) {
            return true;
        }
    }
    false
}

/// The methods of a task that can possibly apply.
fn collect_surviving<M: PlanModel>(
    c: &CompoundTask<M>,
    state: &PlanState<M::Component>,
    unknown: &FieldSet,
    Ghost(set): Ghost<Set<int>>,
) -> (survivors: Vec<usize>)
    requires
        c.checks_fit(state@.len()),
        matches(*unknown, set),
    ensures
        survivors@ == surviving(*c, state@, set),
        forall|k: int| 0 <= k < survivors@.len() ==> (#[trigger] survivors@[k]) < c.methods@.len(),
{
    let mut survivors: Vec<usize> = Vec::new();
    for i in 0..c.methods.len()
        invariant
            c.checks_fit(state@.len()),
            matches(*unknown, set),
            survivors@ == surviving_below(*c, state@, set, i as nat),
            forall|k: int| 0 <= k < survivors@.len() ==> (#[trigger] survivors@[k]) < i,
    {
        if !check_refuted(&c.methods[i].preconditions, state, unknown, Ghost(set)) {
            survivors.push(i);
        }
    }
    survivors
}

/// Adds the slots that a list of effects writes.
fn add_writes<M: PlanModel>(es: &Vec<Effect<M>>, unknown: &mut FieldSet)
    requires
        crate::model::effects_fit(es@, old(unknown).universe()),
    ensures
        final(unknown).universe() == old(unknown).universe(),
        forall|f: int| #[trigger] final(unknown).has(f) == (old(unknown).has(f) || some_writes(es@, f)),
{
    for i in 0..es.len()
        invariant
            crate::model::effects_fit(es@, old(unknown).universe()),
            unknown.universe() == old(unknown).universe(),
            forall|f: int|
                #[trigger] unknown.has(f) == (old(unknown).has(f) || some_writes(
                    es@.take(i as int),
                    f,
                )),
    {
        let w = &es[i].writes;
        let ghost before = *unknown;
        for j in 0..w.len()
            invariant
                crate::state::in_range(w@, unknown.universe()),
                unknown.universe() == before.universe(),
                forall|f: int|
                    #[trigger] unknown.has(f) == (before.has(f) || exists|k: int|
                        0 <= k < j && w@[k] == f),
        {
            let ghost mid = *unknown;
            unknown.insert(w[j]);
            assert forall|f: int| #[trigger] unknown.has(f) == (before.has(f) || exists|k: int|
                0 <= k < j + 1 && w@[k] == f) by {
                if unknown.has(f) && !mid.has(f) {
                    assert(w@[j as int] == f);
                }
                if mid.has(f) && !before.has(f) {
                    let k = choose|k: int| 0 <= k < j && w@[k] == f;
                    assert(w@[k] == f);
                }
            }
        }
        proof {
            let front = es@.take(i as int);
            let longer = es@.take(i + 1);
            assert forall|f: int| #[trigger] unknown.has(f) == (old(unknown).has(f) || some_writes(
                longer,
                f,
            )) by {
                assert(before.has(f) == (old(unknown).has(f) || some_writes(front, f)));
                if some_writes(front, f) {
                    let (k, j) = choose|k: int, j: int|
                        0 <= k < front.len() && 0 <= j < front[k].writes@.len()
                            && #[trigger] front[k].writes@[j] == f;
                    assert(longer[k].writes@[j] == f);
                }
                if exists|k: int| 0 <= k < w@.len() && w@[k] == f {
                    let k = choose|k: int| 0 <= k < w@.len() && w@[k] == f;
                    assert(longer[i as int].writes@[k] == f);
                }
                if some_writes(longer, f) && !some_writes(front, f) {
                    let (k, j) = choose|k: int, j: int|
                        0 <= k < longer.len() && 0 <= j < longer[k].writes@.len()
                            && #[trigger] longer[k].writes@[j] == f;
                    if k < i {
                        assert(front[k].writes@[j] == f);
                    } else {
                        assert(w@[j] == f);
                    }
                }
            }
        }
    }
    assert(es@.take(es@.len() as int) =~= es@);
}

/// Sweeps `sequence[..end]` (task indices, in execution order) against `state`.
///
/// `budget` is the planner's remaining step allowance. `set_semantics` marks
/// the sequence as a partially-ordered member set: each member runs exactly
/// once, in an order that the search picks.
pub fn sweep<M: PlanModel>(
    domain: &HtnDomain<M>,
    state: &PlanState<M::Component>,
    sequence: &Vec<u32>,
    end: usize,
    budget: usize,
    set_semantics: bool,
    depth: SweepDepth,
) -> (verdict: Lookahead)
    requires
        domain.wf(),
        domain.baked(),
        state@.len() == domain.slots(),
        end <= sequence@.len(),
        forall|i: int| 0 <= i < end ==> (#[trigger] sequence@[i]) < domain.tasks@.len(),
    ensures
        match verdict {
            Lookahead::Refine { pins } => swept(
                *domain,
                state@,
                sequence@.take(end as int),
                budget as nat,
                set_semantics,
                depth,
            ) == Some(pins@),
            Lookahead::DeadEnd => swept(
                *domain,
                state@,
                sequence@.take(end as int),
                budget as nat,
                set_semantics,
                depth,
            ) is None,
        },
{
    let ghost seq = sequence@.take(end as int);
    let n: usize = domain.components.slots.len();
    let mut unknown = FieldSet::new(n);
    let mut pins: Vec<(usize, usize)> = Vec::new();
    if set_semantics {
        for i in 0..end
            invariant
                domain.wf(),
                domain.baked(),
                seq == sequence@.take(end as int),
                end <= sequence@.len(),
                forall|j: int| 0 <= j < end ==> (#[trigger] sequence@[j]) < domain.tasks@.len(),
                unknown.universe() == domain.slots(),
                matches(unknown, set_writes(*domain, seq, i as nat)),
        {
            let ghost before = unknown;
            let t: usize = sequence[i] as usize;
            unknown.union_with(&domain.summaries[t].possible_writes);
            proof {
                assert forall|f: int| #[trigger] unknown.has(f) == set_writes(
                    *domain,
                    seq,
                    (i + 1) as nat,
                ).contains(f) by {
                    assert(before.has(f) == set_writes(*domain, seq, i as nat).contains(f));
                    if domain.summaries@[t as int].possible_writes.has(f) {
                        assert(domain.summaries@[seq[i as int] as int].possible_writes.has(f));
                    }
                }
            }
        }
    }
    let mut scratch = state.duplicate();
    let mut steps: usize = 0;
    let mut blind = false;
    let ghost mut sw = sweep_start(*domain, seq, state@, set_semantics);
    proof {
        assert(matches(unknown, sw.unknown));
        assert(sw.pins =~= pins@);
    }
    let mut k: usize = 0;
    while k < end
        invariant
            domain.wf(),
            domain.baked(),
            k <= end,
            end <= sequence@.len(),
            seq == sequence@.take(end as int),
            forall|j: int| 0 <= j < end ==> (#[trigger] sequence@[j]) < domain.tasks@.len(),
            unknown.universe() == domain.slots(),
            scratch@.len() == domain.slots(),
            matches(unknown, sw.unknown),
            sw.state == scratch@,
            sw.steps == steps,
            sw.blind == blind,
            sw.pins == pins@,
            swept(*domain, state@, seq, budget as nat, set_semantics, depth) == sweep_from(
                *domain,
                seq,
                k as nat,
                sw,
                budget as nat,
                set_semantics,
                depth,
            ),
        decreases end - k,
    {
        let t: usize = sequence[k] as usize;
        assert(seq[k as int] == sequence@[k as int]);
        assert(domain.tasks@[t as int].wf(domain.tasks@.len(), domain.slots()));
        let need: usize = domain.summaries[t].min_yield;
        steps = if steps >= usize::MAX - need {
            usize::MAX
        } else {
            steps + need
        };
        if steps > budget || !domain.summaries[t].terminating {
            return Lookahead::DeadEnd;
        }
        match &domain.tasks[t] {
            Task::Primitive(p) => {
                if !blind && check_refuted(&p.preconditions, &scratch, &unknown, Ghost(sw.unknown)) {
                    return Lookahead::DeadEnd;
                }
                if !set_semantics && k + 1 < end {
                    let ghost before = unknown;
                    p.apply_effects(&mut scratch);
                    add_writes(&p.effects, &mut unknown);
                    add_writes(&p.expected_effects, &mut unknown);
                    proof {
                        assert(matches(unknown, sw.unknown.union(written(*p)))) by {
                            assert forall|f: int| #[trigger] unknown.has(f) == sw.unknown.union(
                                written(*p),
                            ).contains(f) by {
                                assert(before.has(f) == sw.unknown.contains(f));
                            }
                        }
                        sw =
                        Sweep {
                            state: p.after(sw.state),
                            unknown: sw.unknown.union(written(*p)),
                            steps: steps as nat,
                            ..sw
                        };
                    }
                } else {
                    proof {
                        sw = Sweep { steps: steps as nat, ..sw };
                    }
                }
            },
            Task::Compound(c) => {
                match depth {
                    SweepDepth::RefutationOnly => {
                        if !set_semantics {
                            blind = true;
                        }
                        proof {
                            sw = Sweep { steps: steps as nat, blind: sw.blind || !set_semantics, ..sw };
                        }
                    },
                    SweepDepth::Full => {
                        proof {
                            assert forall|i: int| 0 <= i < c.methods@.len() implies all_fit(
                                (#[trigger] c.methods@[i]).preconditions@,
                                scratch@.len(),
                            ) by {
                                assert(c.methods@[i].wf(domain.tasks@.len(), domain.slots()));
                            }
                        }
                        let survivors = collect_surviving(c, &scratch, &unknown, Ghost(sw.unknown));
                        if survivors.len() == 0 {
                            return Lookahead::DeadEnd;
                        }
                        if survivors.len() == 1 {
                            pins.push((k, survivors[0]));
                        }
                        let ghost before = unknown;
                        for i in 0..survivors.len()
                            invariant
                                domain.baked(),
                                domain.tasks@[t as int] == Task::Compound(*c),
                                t < domain.tasks@.len(),
                                forall|j: int|
                                    0 <= j < survivors@.len() ==> (#[trigger] survivors@[j])
                                        < c.methods@.len(),
                                unknown.universe() == domain.slots(),
                                forall|f: int|
                                    #[trigger] unknown.has(f) == (before.has(f) || may_write(
                                        *c,
                                        survivors@.take(i as int),
                                    ).contains(f)),
                        {
                            let ghost mid = unknown;
                            let m: usize = survivors[i];
                            assert(domain.tasks@[t as int]->Compound_0.methods@[m as int].possible_writes.universe()
                                == domain.slots());
                            unknown.union_with(&c.methods[m].possible_writes);
                            proof {
                                let front = survivors@.take(i as int);
                                let longer = survivors@.take(i + 1);
                                assert forall|f: int| #[trigger] unknown.has(f) == (before.has(f)
                                    || may_write(*c, longer).contains(f)) by {
                                    assert(mid.has(f) == (before.has(f) || may_write(
                                        *c,
                                        front,
                                    ).contains(f)));
                                    if may_write(*c, front).contains(f) {
                                        let q = choose|q: int|
                                            0 <= q < front.len()
                                                && c.methods@[#[trigger] front[q] as int].possible_writes.has(
                                                f,
                                            );
                                        assert(longer[q] == front[q]);
                                    }
                                    if c.methods@[m as int].possible_writes.has(f) {
                                        assert(longer[i as int] == m);
                                    }
                                    if may_write(*c, longer).contains(f) && !may_write(
                                        *c,
                                        front,
                                    ).contains(f) {
                                        let q = choose|q: int|
                                            0 <= q < longer.len()
                                                && c.methods@[#[trigger] longer[q] as int].possible_writes.has(
                                                f,
                                            );
                                        if q < i {
                                            assert(front[q] == longer[q]);
                                        }
                                    }
                                }
                            }
                        }
                        proof {
                            assert(survivors@.take(survivors@.len() as int) =~= survivors@);
                            assert(matches(
                                unknown,
                                sw.unknown.union(may_write(*c, survivors@)),
                            )) by {
                                assert forall|f: int| #[trigger] unknown.has(f) == sw.unknown.union(
                                    may_write(*c, survivors@),
                                ).contains(f) by {
                                    assert(before.has(f) == sw.unknown.contains(f));
                                }
                            }
                            sw =
                            Sweep {
                                unknown: sw.unknown.union(may_write(*c, survivors@)),
                                steps: steps as nat,
                                pins: pins@,
                                ..sw
                            };
                        }
                    },
                }
            },
            Task::Goal(_) => {
                return Lookahead::Refine { pins };
            },
        }
        k = k + 1;
    }
    Lookahead::Refine { pins }
}

/// Whether a task is sure to leave a slot alone: no effect of a primitive writes
/// it, and no branch of a compound task may write it.
pub open spec fn leaves_alone<M: PlanModel>(d: HtnDomain<M>, t: int, f: int) -> bool {
    match d.tasks@[t] {
        Task::Primitive(p) => !some_writes(p.effects@, f) && !some_writes(p.expected_effects@, f),
        Task::Compound(c) => forall|m: int|
            0 <= m < c.methods@.len() ==> !(#[trigger] c.methods@[m]).possible_writes.has(f),
        Task::Goal(_) => false,
    }
}

/// Whether the first `k` members leave a slot alone.
pub open spec fn untouched<M: PlanModel>(d: HtnDomain<M>, seq: Seq<u32>, k: int, f: int) -> bool {
    forall|j: int| 0 <= j < k ==> leaves_alone(d, #[trigger] seq[j] as int, f)
}

/// Whether one of the preconditions fails in `s` on slots that the first `k`
/// members leave alone, so that it fails behind them too.
pub open spec fn fails_behind<M: PlanModel>(
    d: HtnDomain<M>,
    seq: Seq<u32>,
    k: int,
    ps: Seq<Precondition<M>>,
    s: ModelState<M>,
) -> bool {
    exists|i: int|
        0 <= i < ps.len() && !(#[trigger] ps[i]).holds(s) && forall|r: int|
            0 <= r < ps[i].reads@.len() ==> untouched(d, seq, k, #[trigger] ps[i].reads@[r] as int)
}

/// Whether a member can be seen to fail from where its method is chosen: a
/// primitive with a precondition that fails behind the members before it, or, to a
/// full sweep, a compound task of which every branch has one.
pub open spec fn hopeless<M: PlanModel>(
    d: HtnDomain<M>,
    seq: Seq<u32>,
    k: int,
    s: ModelState<M>,
    depth: SweepDepth,
) -> bool {
    match d.tasks@[seq[k] as int] {
        Task::Primitive(p) => fails_behind(d, seq, k, p.preconditions@, s),
        Task::Compound(c) => depth is Full && forall|m: int|
            0 <= m < c.methods@.len() ==> fails_behind(
                d,
                seq,
                k,
                (#[trigger] c.methods@[m]).preconditions@,
                s,
            ),
        Task::Goal(_) => false,
    }
}

/// Whether a sweep knows a slot wherever the members so far leave it alone.
spec fn knows<M: PlanModel>(
    d: HtnDomain<M>,
    seq: Seq<u32>,
    j: int,
    s: ModelState<M>,
    sw: Sweep<M::Component>,
) -> bool {
    &&& sw.state.len() == s.len()
    &&& !sw.blind
    &&& forall|f: int|
        0 <= f < s.len() && #[trigger] untouched(d, seq, j, f) ==> !sw.unknown.contains(f)
            && sw.state[f] == s[f]
}

proof fn lemma_fails_refuted<M: PlanModel>(
    d: HtnDomain<M>,
    seq: Seq<u32>,
    k: int,
    s: ModelState<M>,
    sw: Sweep<M::Component>,
    ps: Seq<Precondition<M>>,
)
    requires
        knows(d, seq, k, s, sw),
        all_fit(ps, s.len()),
        fails_behind(d, seq, k, ps, s),
    ensures
        refuted(ps, sw.state, sw.unknown),
{
    let i = choose|i: int|
        0 <= i < ps.len() && !(#[trigger] ps[i]).holds(s) && forall|r: int|
            0 <= r < ps[i].reads@.len() ==> untouched(d, seq, k, #[trigger] ps[i].reads@[r] as int);
    assert(ps[i].wf(s.len()));
    assert forall|r: int| 0 <= r < ps[i].reads@.len() implies sw.state[#[trigger] ps[i].reads@[r] as int]
        == s[ps[i].reads@[r] as int] by {
        assert(untouched(d, seq, k, ps[i].reads@[r] as int));
    }
    precondition_depends_on_its_reads(ps[i], sw.state, s);
    assert(definitely_false(ps[i], sw.state, sw.unknown)) by {
        assert forall|r: int| 0 <= r < ps[i].reads@.len() implies !sw.unknown.contains(
            #[trigger] ps[i].reads@[r] as int,
        ) by {
            assert(untouched(d, seq, k, ps[i].reads@[r] as int));
        }
    }
}

proof fn lemma_survivors<M: PlanModel>(
    c: CompoundTask<M>,
    s: ModelState<M>,
    unknown: Set<int>,
    k: nat,
)
    requires
        k <= c.methods@.len() <= usize::MAX,
    ensures
        forall|i: int|
            0 <= i < surviving_below(c, s, unknown, k).len() ==> (#[trigger] surviving_below(
                c,
                s,
                unknown,
                k,
            )[i]) < k && !refuted(
                c.methods@[surviving_below(c, s, unknown, k)[i] as int].preconditions@,
                s,
                unknown,
            ),
        forall|m: int|
            0 <= m < k && !refuted((#[trigger] c.methods@[m]).preconditions@, s, unknown)
                ==> surviving_below(c, s, unknown, k).contains(m as usize),
        forall|a: int, b: int|
            0 <= a < b < surviving_below(c, s, unknown, k).len() ==> surviving_below(
                c,
                s,
                unknown,
                k,
            )[a] < surviving_below(c, s, unknown, k)[b],
    decreases k,
{
    if k > 0 {
        lemma_survivors(c, s, unknown, (k - 1) as nat);
        let before = surviving_below(c, s, unknown, (k - 1) as nat);
        let now = surviving_below(c, s, unknown, k);
        assert forall|m: int|
            0 <= m < k && !refuted(
                (#[trigger] c.methods@[m]).preconditions@,
                s,
                unknown,
            ) implies now.contains(m as usize) by {
            if m < k - 1 {
                let i = before.index_of(m as usize);
                assert(before.contains(m as usize));
                assert(now[i] == m as usize);
            } else {
                assert(now[before.len() as int] == m as usize);
            }
        }
    }
}

/// A sweep's list of what can possibly apply holds the branches that are not
/// refuted, each once, in declaration order.
pub proof fn survivors_are_what_may_apply<M: PlanModel>(
    c: CompoundTask<M>,
    s: ModelState<M>,
    unknown: Set<int>,
    m: usize,
)
    requires
        c.methods@.len() <= usize::MAX,
    ensures
        surviving(c, s, unknown).contains(m) <==> m < c.methods@.len() && forall|i: int|
            0 <= i < c.methods@[m as int].preconditions@.len() ==> {
                let pre = #[trigger] c.methods@[m as int].preconditions@[i];
                pre.holds(s) || exists|r: int|
                    0 <= r < pre.reads@.len() && unknown.contains(#[trigger] pre.reads@[r] as int)
            },
        forall|a: int, b: int|
            0 <= a < b < surviving(c, s, unknown).len() ==> surviving(c, s, unknown)[a] < surviving(
                c,
                s,
                unknown,
            )[b],
{
    lemma_survivors(c, s, unknown, c.methods@.len());
    if m < c.methods@.len() {
        let ps = c.methods@[m as int].preconditions@;
        if refuted(ps, s, unknown) {
            let i = choose|i: int| 0 <= i < ps.len() && definitely_false(#[trigger] ps[i], s, unknown);
            let pre = c.methods@[m as int].preconditions@[i];
            assert(!pre.holds(s));
        } else {
            assert forall|i: int| 0 <= i < c.methods@[m as int].preconditions@.len() implies {
                let pre = #[trigger] c.methods@[m as int].preconditions@[i];
                pre.holds(s) || exists|r: int|
                    0 <= r < pre.reads@.len() && unknown.contains(#[trigger] pre.reads@[r] as int)
            } by {
                assert(!definitely_false(ps[i], s, unknown));
            }
        }
    }
}

proof fn lemma_foresees<M: PlanModel>(
    d: HtnDomain<M>,
    seq: Seq<u32>,
    j: nat,
    sw: Sweep<M::Component>,
    budget: nat,
    depth: SweepDepth,
    s: ModelState<M>,
    k: nat,
)
    requires
        d.wf(),
        s.len() == d.slots(),
        j <= k < seq.len(),
        forall|i: int| 0 <= i < seq.len() ==> (#[trigger] seq[i]) < d.tasks@.len(),
        forall|i: int|
            0 <= i < k ==> !(d.tasks@[#[trigger] seq[i] as int] is Goal) && (depth is Full
                || d.tasks@[seq[i] as int] is Primitive),
        knows(d, seq, j as int, s, sw),
        hopeless(d, seq, k as int, s, depth),
    ensures
        sweep_from(d, seq, j, sw, budget, false, depth) is None,
    decreases k - j,
{
    let t = seq[j as int] as int;
    assert(seq[j as int] < d.tasks@.len());
    assert(d.tasks@[t].wf(d.tasks@.len(), d.slots()));
    if j == k {
        match d.tasks@[t] {
            Task::Primitive(p) => {
                lemma_fails_refuted(d, seq, k as int, s, sw, p.preconditions@);
            },
            Task::Compound(c) => {
                lemma_survivors(c, sw.state, sw.unknown, c.methods@.len());
                let survivors = surviving(c, sw.state, sw.unknown);
                if survivors.len() > 0 {
                    let m = survivors[0] as int;
                    assert(c.methods@[m].wf(d.tasks@.len(), d.slots()));
                    lemma_fails_refuted(d, seq, k as int, s, sw, c.methods@[m].preconditions@);
                }
            },
            Task::Goal(_) => {},
        }
    } else {
        assert(!(d.tasks@[seq[j as int] as int] is Goal));
        let steps = capped_sum(sw.steps, d.summaries@[t].min_yield as nat);
        assert forall|f: int| untouched(d, seq, (j + 1) as int, f) implies #[trigger] untouched(
            d,
            seq,
            j as int,
            f,
        ) && leaves_alone(d, t, f) by {
            assert(leaves_alone(d, seq[j as int] as int, f));
        }
        match d.tasks@[t] {
            Task::Primitive(p) => {
                let next = Sweep {
                    state: p.after(sw.state),
                    unknown: sw.unknown.union(written(p)),
                    steps,
                    ..sw
                };
                lemma_after_len(p, sw.state);
                assert(knows(d, seq, (j + 1) as int, s, next)) by {
                    assert forall|f: int|
                        0 <= f < s.len() && #[trigger] untouched(
                            d,
                            seq,
                            (j + 1) as int,
                            f,
                        ) implies !next.unknown.contains(f) && next.state[f] == s[f] by {
                        assert(untouched(d, seq, j as int, f) && leaves_alone(d, t, f));
                        lemma_apply_all_frame(p.effects@, sw.state, f);
                        lemma_apply_all_len(p.effects@, sw.state);
                        lemma_apply_all_frame(
                            p.expected_effects@,
                            crate::model::apply_all(p.effects@, sw.state),
                            f,
                        );
                    }
                }
                lemma_foresees(d, seq, j + 1, next, budget, depth, s, k);
            },
            Task::Compound(c) => {
                let survivors = surviving(c, sw.state, sw.unknown);
                lemma_survivors(c, sw.state, sw.unknown, c.methods@.len());
                let next = Sweep {
                    unknown: sw.unknown.union(may_write(c, survivors)),
                    steps,
                    pins: if survivors.len() == 1 {
                        sw.pins.push((j as usize, survivors[0]))
                    } else {
                        sw.pins
                    },
                    ..sw
                };
                assert(knows(d, seq, (j + 1) as int, s, next)) by {
                    assert forall|f: int|
                        0 <= f < s.len() && #[trigger] untouched(
                            d,
                            seq,
                            (j + 1) as int,
                            f,
                        ) implies !next.unknown.contains(f) && next.state[f] == s[f] by {
                        assert(untouched(d, seq, j as int, f) && leaves_alone(d, t, f));
                        if may_write(c, survivors).contains(f) {
                            let i = choose|i: int|
                                0 <= i < survivors.len()
                                    && c.methods@[#[trigger] survivors[i] as int].possible_writes.has(
                                    f,
                                );
                            assert(!c.methods@[survivors[i] as int].possible_writes.has(f));
                        }
                    }
                }
                lemma_foresees(d, seq, j + 1, next, budget, depth, s, k);
            },
            Task::Goal(_) => {},
        }
    }
}

/// The look-ahead refutes what it can see: a member sequence is a dead end where a
/// member is bound to fail on slots that the members before it leave alone. (A
/// sweep for refutation alone looks behind primitives, not behind compound tasks;
/// nothing is looked at behind a goal.)
pub proof fn visible_failures_are_foreseen<M: PlanModel>(
    d: HtnDomain<M>,
    s: ModelState<M>,
    seq: Seq<u32>,
    budget: nat,
    depth: SweepDepth,
    k: nat,
)
    requires
        d.wf(),
        s.len() == d.slots(),
        k < seq.len(),
        forall|i: int| 0 <= i < seq.len() ==> (#[trigger] seq[i]) < d.tasks@.len(),
        forall|i: int|
            0 <= i < k ==> !(d.tasks@[#[trigger] seq[i] as int] is Goal) && (depth is Full
                || d.tasks@[seq[i] as int] is Primitive),
        hopeless(d, seq, k as int, s, depth),
    ensures
        swept(d, s, seq, budget, false, depth) is None,
{
    lemma_foresees(d, seq, 0, sweep_start(d, seq, s, false), budget, depth, s, k);
}

/// The steps that the first `k` members need at least, all together.
pub open spec fn yields<M: PlanModel>(d: HtnDomain<M>, seq: Seq<u32>, k: nat) -> nat
    decreases k,
{
    if k == 0 {
        0
    } else {
        yields(d, seq, (k - 1) as nat) + d.summaries@[seq[k - 1] as int].min_yield as nat
    }
}

proof fn lemma_sweep_affords<M: PlanModel>(
    d: HtnDomain<M>,
    seq: Seq<u32>,
    j: nat,
    sw: Sweep<M::Component>,
    budget: nat,
    set_semantics: bool,
    depth: SweepDepth,
    k: nat,
)
    requires
        j <= k < seq.len(),
        budget < usize::MAX,
        sw.steps == (if yields(d, seq, j) >= usize::MAX {
            usize::MAX as nat
        } else {
            yields(d, seq, j)
        }),
        forall|i: int| j <= i < k ==> !(d.tasks@[#[trigger] seq[i] as int] is Goal),
        sweep_from(d, seq, j, sw, budget, set_semantics, depth) is Some,
    ensures
        yields(d, seq, k + 1) <= budget,
        d.summaries@[seq[k as int] as int].terminating,
    decreases k - j,
{
    if j < k {
        let t = seq[j as int] as int;
        assert(!(d.tasks@[seq[j as int] as int] is Goal));
        let steps = capped_sum(sw.steps, d.summaries@[t].min_yield as nat);
        let next = match d.tasks@[t] {
            Task::Primitive(p) => if set_semantics || j + 1 >= seq.len() {
                Sweep { steps, ..sw }
            } else {
                Sweep {
                    state: p.after(sw.state),
                    unknown: sw.unknown.union(written(p)),
                    steps,
                    ..sw
                }
            },
            Task::Compound(c) => if depth is RefutationOnly {
                Sweep { steps, blind: sw.blind || !set_semantics, ..sw }
            } else {
                let survivors = surviving(c, sw.state, sw.unknown);
                Sweep {
                    unknown: sw.unknown.union(may_write(c, survivors)),
                    steps,
                    pins: if survivors.len() == 1 {
                        sw.pins.push((j as usize, survivors[0]))
                    } else {
                        sw.pins
                    },
                    ..sw
                }
            },
            Task::Goal(_) => sw,
        };
        lemma_sweep_affords(d, seq, j + 1, next, budget, set_semantics, depth, k);
    }
}

/// A member sequence that the look-ahead lets pass fits the budget: the least steps
/// of its members up to each one, all together, are no more than the budget, and
/// the member has a finite refinement. (Nothing is looked at behind a goal.)
pub proof fn passing_sequences_fit_the_budget<M: PlanModel>(
    d: HtnDomain<M>,
    s: ModelState<M>,
    seq: Seq<u32>,
    budget: nat,
    set_semantics: bool,
    depth: SweepDepth,
    k: nat,
)
    requires
        k < seq.len(),
        budget < usize::MAX,
        forall|i: int| 0 <= i < k ==> !(d.tasks@[#[trigger] seq[i] as int] is Goal),
        swept(d, s, seq, budget, set_semantics, depth) is Some,
    ensures
        yields(d, seq, k + 1) <= budget,
        d.summaries@[seq[k as int] as int].terminating,
{
    lemma_sweep_affords(
        d,
        seq,
        0,
        sweep_start(d, seq, s, set_semantics),
        budget,
        set_semantics,
        depth,
        k,
    );
}

proof fn lemma_pins_stay<M: PlanModel>(
    d: HtnDomain<M>,
    seq: Seq<u32>,
    k: nat,
    sw: Sweep<M::Component>,
    budget: nat,
    set_semantics: bool,
    depth: SweepDepth,
)
    ensures
        sweep_from(d, seq, k, sw, budget, set_semantics, depth) matches Some(pins)
            ==> sw.pins.is_prefix_of(pins) && (depth is RefutationOnly ==> pins == sw.pins),
    decreases seq.len() - k,
{
    if k < seq.len() {
        let t = seq[k as int] as int;
        let steps = capped_sum(sw.steps, d.summaries@[t].min_yield as nat);
        match d.tasks@[t] {
            Task::Primitive(p) => {
                let still = Sweep { steps, ..sw };
                let moved = Sweep {
                    state: p.after(sw.state),
                    unknown: sw.unknown.union(written(p)),
                    steps,
                    ..sw
                };
                lemma_pins_stay(d, seq, k + 1, still, budget, set_semantics, depth);
                lemma_pins_stay(d, seq, k + 1, moved, budget, set_semantics, depth);
            },
            Task::Compound(c) => {
                let survivors = surviving(c, sw.state, sw.unknown);
                let pinned = Sweep {
                    unknown: sw.unknown.union(may_write(c, survivors)),
                    steps,
                    pins: if survivors.len() == 1 {
                        sw.pins.push((k as usize, survivors[0]))
                    } else {
                        sw.pins
                    },
                    ..sw
                };
                let blind = Sweep { steps, blind: sw.blind || !set_semantics, ..sw };
                lemma_pins_stay(d, seq, k + 1, pinned, budget, set_semantics, depth);
                lemma_pins_stay(d, seq, k + 1, blind, budget, set_semantics, depth);
            },
            Task::Goal(_) => {},
        }
    }
}

/// A full sweep pins a first member of which exactly one branch applies to that
/// branch; a sweep for refutation alone pins nothing.
pub proof fn the_only_branch_is_pinned<M: PlanModel>(
    d: HtnDomain<M>,
    s: ModelState<M>,
    seq: Seq<u32>,
    budget: nat,
    c: CompoundTask<M>,
    only: usize,
)
    requires
        seq.len() > 0,
        d.tasks@[seq[0] as int] == Task::Compound(c),
        only < c.methods@.len() <= usize::MAX,
        forall|m: int|
            0 <= m < c.methods@.len() ==> ((#[trigger] c.methods@[m]).valid(s) <==> m == only),
    ensures
        swept(d, s, seq, budget, false, SweepDepth::Full) matches Some(pins) ==> pins.len() > 0
            && pins[0] == (0usize, only),
        swept(d, s, seq, budget, false, SweepDepth::RefutationOnly) matches Some(pins)
            ==> pins.len() == 0,
{
    let sw = sweep_start(d, seq, s, false);
    let t = seq[0] as int;
    let steps = capped_sum(sw.steps, d.summaries@[t].min_yield as nat);
    let survivors = surviving(c, s, sw.unknown);
    lemma_survivors(c, s, sw.unknown, c.methods@.len());
    assert forall|m: int| 0 <= m < c.methods@.len() implies (refuted(
        (#[trigger] c.methods@[m]).preconditions@,
        s,
        sw.unknown,
    ) <==> m != only) by {
        let ps = c.methods@[m].preconditions@;
        if !c.methods@[m].valid(s) {
            let i = choose|i: int| 0 <= i < ps.len() && !(#[trigger] ps[i]).holds(s);
            assert(definitely_false(ps[i], s, sw.unknown));
        }
    }
    assert(survivors.contains(only)) by {
        assert(!refuted(c.methods@[only as int].preconditions@, s, sw.unknown));
    }
    let at = survivors.index_of(only);
    assert(survivors.len() == 1) by {
        if survivors.len() > 1 {
            let other: int = if at == 0 {
                1
            } else {
                0
            };
            assert(survivors[other] < c.methods@.len());
            assert(!refuted(
                c.methods@[survivors[other] as int].preconditions@,
                s,
                sw.unknown,
            ));
            assert(survivors[other] == only);
        }
    }
    let next = Sweep {
        unknown: sw.unknown.union(may_write(c, survivors)),
        steps,
        pins: sw.pins.push((0usize, survivors[0])),
        ..sw
    };
    assert(next.pins[0] == (0usize, only));
    lemma_pins_stay(d, seq, 1, next, budget, false, SweepDepth::Full);
    lemma_pins_stay(d, seq, 0, sw, budget, false, SweepDepth::RefutationOnly);
}

} // verus!
