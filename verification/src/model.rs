//! What a domain's author supplies, and the compiled preconditions, effects
//! and scores that the planners run.
//!
//! The bodies of preconditions, effects and scores are the author's own code.
//! [`PlanModel`] is what the planners know of it: each body is a function of
//! the component values that it is handed. The library hands a body the slots
//! that it declared, and stores what an effect returns in the slots that it
//! declared to write, so a precondition depends on its read slots alone and an
//! effect changes its write slots alone.

use crate::state::{gather, in_range, is_marked, with_mark, PlanComponent, PlanState, Slot, SlotView, StateView};
use ustr::Ustr;
use vstd::prelude::*;

verus! {

/// One valid branch offered to a branch ranker.
pub struct BranchCandidate<'a> {
    /// The branch's declaration index.
    pub index: u32,
    /// The branch's declared name, if any.
    pub name: Option<Ustr>,
    /// The branch's declared static utility, if any.
    pub utility: Option<i64>,
    /// The branch's subtask list (task indices, for structural heuristics).
    pub subtasks: &'a Vec<u32>,
}

/// The new values that an effect computes, one for each slot that it writes.
pub type NewValues<C> = Seq<C>;

/// The candidates offered to a branch ranker.
pub type Candidates<'a> = Seq<BranchCandidate<'a>>;

/// A branch ranker's preferred order.
pub type Ranking = Seq<u32>;

/// The author's side of a domain: component values and the bodies of
/// preconditions, effects, scores, branch rankers and actions.
pub trait PlanModel: Sized {
    /// A component value.
    type Component: PlanComponent;

    /// A precondition's body.
    type Check;

    /// An effect's body.
    type Mutator;

    /// A utility's or cost's body.
    type Score;

    /// A branch ranker.
    type Ranker;

    /// A real-world action. The planners carry it and never run it.
    type Action;

    /// Whether a precondition holds of the values of the slots it reads.
    spec fn check_holds(check: Self::Check, args: StateView<Self::Component>) -> bool;

    /// Whether a precondition holds of the values of the slots it reads.
    fn check(check: &Self::Check, state: &PlanState<Self::Component>, reads: &Vec<usize>) -> (b: bool)
        requires
            in_range(reads@, state@.len()),
        ensures
            b == Self::check_holds(*check, gather(state@, reads@)),
    ;

    /// A copy of a precondition's body.
    fn clone_check(check: &Self::Check) -> (c: Self::Check)
        ensures
            c == *check,
    ;

    /// What an effect computes from the values of its parameter slots: the new
    /// value of each slot that it writes.
    spec fn mutated(mutator: Self::Mutator, args: StateView<Self::Component>) -> NewValues<
        Self::Component,
    >;

    /// What an effect computes from the values of its parameter slots.
    fn mutate(
        mutator: &Self::Mutator,
        state: &PlanState<Self::Component>,
        params: &Vec<usize>,
    ) -> (values: Vec<Self::Component>)
        requires
            in_range(params@, state@.len()),
        ensures
            values@ == Self::mutated(*mutator, gather(state@, params@)),
    ;

    /// The score of a state.
    spec fn score_of(score: Self::Score, state: StateView<Self::Component>) -> i64;

    /// The score of a state.
    fn score(score: &Self::Score, state: &PlanState<Self::Component>) -> (s: i64)
        ensures
            s == Self::score_of(*score, state@),
    ;

    /// The preferred order of the offered candidates. A ranker is deterministic
    /// for given candidates and a given state.
    spec fn ranking(
        ranker: Self::Ranker,
        candidates: Candidates<'_>,
        state: StateView<Self::Component>,
    ) -> Ranking;

    /// The preferred order of the offered candidates.
    fn rank(
        ranker: &Self::Ranker,
        candidates: &Vec<BranchCandidate<'_>>,
        state: &PlanState<Self::Component>,
    ) -> (order: Vec<u32>)
        ensures
            order@ == Self::ranking(*ranker, candidates@, state@),
    ;
}

/// The view of a scratchpad of a model's components.
pub type ModelState<M> = StateView<<M as PlanModel>::Component>;

/// One of the preconditions that a shared task's completion test looks at.
pub struct Gate<M: PlanModel> {
    /// The precondition's body.
    pub check: M::Check,
    /// The slots it reads.
    pub reads: Vec<usize>,
}

/// How a precondition is evaluated.
pub enum CompiledCheck<M: PlanModel> {
    /// The author's body, on the values of the read slots.
    Body(M::Check),
    /// The shared task with ordinal `id` is done: it is marked, or one of its
    /// own preconditions fails.
    SharedDone {
        /// The marker slot.
        slot: usize,
        /// The shared task's ordinal.
        id: usize,
        /// The shared task's own preconditions.
        gates: Vec<Gate<M>>,
    },
    /// The shared task with ordinal `id` is not marked.
    SharedOpen {
        /// The marker slot.
        slot: usize,
        /// The shared task's ordinal.
        id: usize,
    },
}

/// A compiled precondition: how it is evaluated, and the slots it reads.
pub struct Precondition<M: PlanModel> {
    /// How it is evaluated.
    pub check: CompiledCheck<M>,
    /// The slots it reads.
    pub reads: Vec<usize>,
}

/// Whether every index of `inner` occurs in `outer`.
pub open spec fn covered(inner: Seq<usize>, outer: Seq<usize>) -> bool {
    forall|i: int| 0 <= i < inner.len() ==> outer.contains(#[trigger] inner[i])
}

impl<M: PlanModel> Gate<M> {
    /// Whether the precondition holds in `s`.
    pub open spec fn holds(&self, s: ModelState<M>) -> bool {
        M::check_holds(self.check, gather(s, self.reads@))
    }
}

impl<M: PlanModel> Precondition<M> {
    /// Whether the precondition fits a scratchpad with `n` slots: it reads
    /// slots of the scratchpad, and looks at no slot that it does not declare.
    pub open spec fn wf(&self, n: nat) -> bool {
        &&& in_range(self.reads@, n)
        &&& match self.check {
            CompiledCheck::Body(_) => true,
            CompiledCheck::SharedDone { slot, id, gates } => {
                &&& slot < n
                &&& self.reads@.contains(slot)
                &&& forall|i: int|
                    0 <= i < gates@.len() ==> in_range((#[trigger] gates@[i]).reads@, n) && covered(
                        gates@[i].reads@,
                        self.reads@,
                    )
            },
            CompiledCheck::SharedOpen { slot, id } => slot < n && self.reads@.contains(slot),
        }
    }

    /// Whether the precondition holds in `s`.
    pub open spec fn holds(&self, s: ModelState<M>) -> bool {
        match self.check {
            CompiledCheck::Body(c) => M::check_holds(c, gather(s, self.reads@)),
            CompiledCheck::SharedDone { slot, id, gates } => is_marked(s[slot as int], id as int)
                || exists|i: int| 0 <= i < gates@.len() && !(#[trigger] gates@[i]).holds(s),
            CompiledCheck::SharedOpen { slot, id } => !is_marked(s[slot as int], id as int),
        }
    }

    /// Evaluates the precondition against a scratchpad.
    pub fn evaluate(&self, state: &PlanState<M::Component>) -> (b: bool)
        requires
            self.wf(state@.len()),
        ensures
            b == self.holds(state@),
    {
        match &self.check {
            CompiledCheck::Body(c) => M::check(c, state, &self.reads),
            CompiledCheck::SharedDone { slot, id, gates } => {
                if state.marked(*slot, *id) {
                    return true;
                }
                for i in 0..gates.len()
                    invariant
                        forall|k: int|
                            0 <= k < gates@.len() ==> in_range(
                                (#[trigger] gates@[k]).reads@,
                                state@.len(),
                            ),
                        forall|k: int| 0 <= k < i ==> (#[trigger] gates@[k]).holds(state@),
                        self.check == (CompiledCheck::<M>::SharedDone {
                            slot: *slot,
                            id: *id,
                            gates: *gates,
                        }),
                {
                    if !M::check(&gates[i].check, state, &gates[i].reads) {
                        assert(!gates@[i as int].holds(state@));
                        assert(self.check->gates@[i as int] == gates@[i as int]);
                        return true;
                    }
                }
                false
            },
            CompiledCheck::SharedOpen { slot, id } => !state.marked(*slot, *id),
        }
    }

    /// The slots this precondition reads.
    pub fn reads(&self) -> (r: &Vec<usize>)
        ensures
            r@ == self.reads@,
    {
        &self.reads
    }
}

/// Whether every precondition of a list holds in `s`.
pub open spec fn all_hold<M: PlanModel>(ps: Seq<Precondition<M>>, s: ModelState<M>) -> bool {
    forall|i: int| 0 <= i < ps.len() ==> (#[trigger] ps[i]).holds(s)
}

/// Whether every precondition of a list fits a scratchpad with `n` slots.
pub open spec fn all_fit<M: PlanModel>(ps: Seq<Precondition<M>>, n: nat) -> bool {
    forall|i: int| 0 <= i < ps.len() ==> (#[trigger] ps[i]).wf(n)
}

/// Evaluates a list of preconditions.
pub(crate) fn evaluate_all<M: PlanModel>(
    ps: &Vec<Precondition<M>>,
    state: &PlanState<M::Component>,
) -> (b: bool)
    requires
        all_fit(ps@, state@.len()),
    ensures
        b == all_hold(ps@, state@),
{
    for i in 0..ps.len()
        invariant
            all_fit(ps@, state@.len()),
            forall|k: int| 0 <= k < i ==> (#[trigger] ps@[k]).holds(state@),
    {
        if !ps[i].evaluate(state) {
            return false;
        }
    }
    true
}

/// A precondition is a function of the slots that it declares to read: two
/// states that agree there give it the same value.
pub proof fn precondition_depends_on_its_reads<M: PlanModel>(
    p: Precondition<M>,
    a: ModelState<M>,
    b: ModelState<M>,
)
    requires
        a.len() == b.len(),
        p.wf(a.len()),
        forall|i: int|
            0 <= i < p.reads@.len() ==> a[#[trigger] p.reads@[i] as int] == b[p.reads@[i] as int],
    ensures
        p.holds(a) == p.holds(b),
{
    assert(gather(a, p.reads@) =~= gather(b, p.reads@));
    match p.check {
        CompiledCheck::Body(_) => {},
        CompiledCheck::SharedDone { slot, id, gates } => {
            let k = p.reads@.index_of(slot);
            assert(p.reads@[k] == slot);
            assert forall|i: int| 0 <= i < gates@.len() implies (#[trigger] gates@[i]).holds(a)
                == gates@[i].holds(b) by {
                let inner = gates@[i].reads@;
                assert forall|j: int| 0 <= j < inner.len() implies a[#[trigger] inner[j] as int]
                    == b[inner[j] as int] by {
                    let m = p.reads@.index_of(inner[j]);
                    assert(p.reads@[m] == inner[j]);
                }
                assert(gather(a, inner) =~= gather(b, inner));
            }
            if p.holds(a) && !is_marked(a[slot as int], id as int) {
                let i = choose|i: int| 0 <= i < gates@.len() && !(#[trigger] gates@[i]).holds(a);
                assert(!gates@[i].holds(b));
            }
            if p.holds(b) && !is_marked(b[slot as int], id as int) {
                let i = choose|i: int| 0 <= i < gates@.len() && !(#[trigger] gates@[i]).holds(b);
                assert(!gates@[i].holds(a));
            }
        },
        CompiledCheck::SharedOpen { slot, id } => {
            let k = p.reads@.index_of(slot);
            assert(p.reads@[k] == slot);
        },
    }
}

/// How an effect is applied.
pub enum EffectBody<M: PlanModel> {
    /// The author's body: the values it computes go to the write slots.
    Body(M::Mutator),
    /// Marks the shared task with ordinal `id`.
    Mark {
        /// The marker slot.
        slot: usize,
        /// The shared task's ordinal.
        id: usize,
    },
}

/// A compiled effect: how it is applied, its parameter slots, and the slots it
/// writes.
pub struct Effect<M: PlanModel> {
    /// How it is applied.
    pub body: EffectBody<M>,
    /// The slots whose values it is handed.
    pub params: Vec<usize>,
    /// The slots it writes.
    pub writes: Vec<usize>,
}

/// `state` with the first `k` of `values` stored in the first `k` of `slots`.
pub open spec fn store<C>(state: StateView<C>, slots: Seq<usize>, values: Seq<C>, k: nat) -> StateView<C>
    decreases k,
{
    if k == 0 {
        state
    } else {
        store(state, slots, values, (k - 1) as nat).update(
            slots[k - 1] as int,
            SlotView::Value(values[k - 1]),
        )
    }
}

/// The number of values that an effect stores: one per write slot, as far as
/// the body supplied them.
pub open spec fn stored<C>(slots: Seq<usize>, values: Seq<C>) -> nat {
    if slots.len() <= values.len() {
        slots.len()
    } else {
        values.len()
    }
}

impl<M: PlanModel> Effect<M> {
    /// Whether the effect fits a scratchpad with `n` slots.
    pub open spec fn wf(&self, n: nat) -> bool {
        &&& in_range(self.params@, n)
        &&& in_range(self.writes@, n)
        &&& self.body matches EffectBody::Mark { slot, id } ==> slot < n && id < usize::MAX
            && self.writes@.contains(slot)
    }

    /// The state after the effect is applied in `s`.
    pub open spec fn result(&self, s: ModelState<M>) -> ModelState<M> {
        match self.body {
            EffectBody::Body(m) => {
                let values = M::mutated(m, gather(s, self.params@));
                store(s, self.writes@, values, stored(self.writes@, values))
            },
            EffectBody::Mark { slot, id } => s.update(
                slot as int,
                with_mark(s[slot as int], id as int),
            ),
        }
    }

    /// Applies the effect to a scratchpad.
    pub fn apply(&self, state: &mut PlanState<M::Component>)
        requires
            self.wf(old(state)@.len()),
        ensures
            final(state)@ == self.result(old(state)@),
            final(state)@.len() == old(state)@.len(),
    {
        match &self.body {
            EffectBody::Body(m) => {
                let values = M::mutate(m, state, &self.params);
                let ghost computed = values@;
                let n: usize = if self.writes.len() <= values.len() {
                    self.writes.len()
                } else {
                    values.len()
                };
                let mut rest = values;
                let mut k: usize = 0;
                // Values are taken off the front one at a time.
                while k < n
                    invariant
                        k <= n,
                        n == stored(self.writes@, computed),
                        n <= self.writes@.len(),
                        in_range(self.writes@, state@.len()),
                        state@.len() == old(state)@.len(),
                        rest@ == computed.skip(k as int),
                        n <= computed.len(),
                        state@ == store(old(state)@, self.writes@, computed, k as nat),
                    decreases n - k,
                {
                    let value = rest.remove(0);
                    assert(value == computed[k as int]);
                    assert(rest@ =~= computed.skip(k + 1));
                    state.put(self.writes[k], Slot::Value(value));
                    k = k + 1;
                }
                proof {
                    assert(state@ == self.result(old(state)@));
                }
            },
            EffectBody::Mark { slot, id } => {
                state.mark(*slot, *id);
            },
        }
    }

    /// The slots this effect writes.
    pub fn writes(&self) -> (w: &Vec<usize>)
        ensures
            w@ == self.writes@,
    {
        &self.writes
    }
}

proof fn lemma_store_frame<C>(state: StateView<C>, slots: Seq<usize>, values: Seq<C>, k: nat, i: int)
    requires
        k <= slots.len(),
        in_range(slots, state.len()),
        0 <= i < state.len(),
        forall|j: int| 0 <= j < slots.len() ==> slots[j] != i,
    ensures
        store(state, slots, values, k).len() == state.len(),
        store(state, slots, values, k)[i] == state[i],
    decreases k,
{
    if k > 0 {
        lemma_store_frame(state, slots, values, (k - 1) as nat, i);
    }
}

proof fn lemma_store_len<C>(state: StateView<C>, slots: Seq<usize>, values: Seq<C>, k: nat)
    requires
        k <= slots.len(),
        in_range(slots, state.len()),
    ensures
        store(state, slots, values, k).len() == state.len(),
    decreases k,
{
    if k > 0 {
        lemma_store_len(state, slots, values, (k - 1) as nat);
    }
}

/// An effect changes no slot but those that it declares to write.
pub proof fn effect_changes_its_writes_alone<M: PlanModel>(e: Effect<M>, s: ModelState<M>, i: int)
    requires
        e.wf(s.len()),
        0 <= i < s.len(),
        forall|j: int| 0 <= j < e.writes@.len() ==> e.writes@[j] != i,
    ensures
        e.result(s)[i] == s[i],
{
    match e.body {
        EffectBody::Body(m) => {
            let values = M::mutated(m, gather(s, e.params@));
            lemma_store_frame(s, e.writes@, values, stored(e.writes@, values), i);
        },
        EffectBody::Mark { slot, id } => {
            let k = e.writes@.index_of(slot);
            assert(e.writes@[k] == slot);
        },
    }
}

/// An effect keeps the number of slots.
pub proof fn lemma_result_len<M: PlanModel>(e: Effect<M>, s: ModelState<M>)
    requires
        e.wf(s.len()),
    ensures
        e.result(s).len() == s.len(),
{
    match e.body {
        EffectBody::Body(m) => {
            let values = M::mutated(m, gather(s, e.params@));
            lemma_store_len(s, e.writes@, values, stored(e.writes@, values));
        },
        EffectBody::Mark { .. } => {},
    }
}

/// Whether every effect of a list fits a scratchpad with `n` slots.
pub open spec fn effects_fit<M: PlanModel>(es: Seq<Effect<M>>, n: nat) -> bool {
    forall|i: int| 0 <= i < es.len() ==> (#[trigger] es[i]).wf(n)
}

/// The state after a list of effects is applied in `s`, first to last.
pub open spec fn apply_all<M: PlanModel>(es: Seq<Effect<M>>, s: ModelState<M>) -> ModelState<M>
    decreases es.len(),
{
    if es.len() == 0 {
        s
    } else {
        es.last().result(apply_all(es.drop_last(), s))
    }
}

pub proof fn lemma_apply_all_len<M: PlanModel>(es: Seq<Effect<M>>, s: ModelState<M>)
    requires
        effects_fit(es, s.len()),
    ensures
        apply_all(es, s).len() == s.len(),
    decreases es.len(),
{
    if es.len() > 0 {
        lemma_apply_all_len(es.drop_last(), s);
        assert(es[es.len() - 1].wf(s.len()));
        lemma_result_len(es.last(), apply_all(es.drop_last(), s));
    }
}

/// Whether some effect of a list writes slot `i`.
pub open spec fn some_writes<M: PlanModel>(es: Seq<Effect<M>>, i: int) -> bool {
    exists|k: int, j: int|
        0 <= k < es.len() && 0 <= j < es[k].writes@.len() && #[trigger] es[k].writes@[j] == i
}

/// A list of effects changes no slot that none of them declares to write.
pub proof fn lemma_apply_all_frame<M: PlanModel>(es: Seq<Effect<M>>, s: ModelState<M>, i: int)
    requires
        effects_fit(es, s.len()),
        0 <= i < s.len(),
        !some_writes(es, i),
    ensures
        apply_all(es, s)[i] == s[i],
    decreases es.len(),
{
    if es.len() > 0 {
        let front = es.drop_last();
        assert(!some_writes(front, i)) by {
            if some_writes(front, i) {
                let (k, j) = choose|k: int, j: int|
                    0 <= k < front.len() && 0 <= j < front[k].writes@.len()
                        && #[trigger] front[k].writes@[j] == i;
                assert(es[k].writes@[j] == i);
            }
        }
        lemma_apply_all_frame(front, s, i);
        lemma_apply_all_len(front, s);
        let last = es[es.len() - 1];
        assert forall|j: int| 0 <= j < last.writes@.len() implies last.writes@[j] != i by {
            if last.writes@[j] == i {
                assert(es[es.len() - 1].writes@[j] == i);
            }
        }
        effect_changes_its_writes_alone(last, apply_all(front, s), i);
    }
}

/// A utility or cost: a constant, or the author's body on the scratchpad.
///
/// Scores are counted in fixed-point units, [`SCORE_ONE`] to the whole.
pub enum ScoreFn<M: PlanModel> {
    /// The same score in every state.
    Constant(i64),
    /// The author's body.
    Dynamic(M::Score),
}

/// The score that stands for one.
pub const SCORE_ONE: i64 = 1_048_576;

impl<M: PlanModel> ScoreFn<M> {
    /// The score of `s`.
    pub open spec fn of(&self, s: ModelState<M>) -> i64 {
        match self {
            ScoreFn::Constant(c) => *c,
            ScoreFn::Dynamic(f) => M::score_of(*f, s),
        }
    }

    /// The score of a scratchpad.
    pub fn evaluate(&self, state: &PlanState<M::Component>) -> (s: i64)
        ensures
            s == self.of(state@),
    {
        match self {
            ScoreFn::Constant(c) => *c,
            ScoreFn::Dynamic(f) => M::score(f, state),
        }
    }
}

proof fn lemma_store_at<C>(state: StateView<C>, slots: Seq<usize>, values: Seq<C>, k: nat, i: int)
    requires
        k <= slots.len(),
        in_range(slots, state.len()),
        0 <= i < k,
        forall|j: int| i < j < k ==> #[trigger] slots[j] != slots[i],
    ensures
        store(state, slots, values, k)[slots[i] as int] == SlotView::Value(values[i]),
    decreases k,
{
    lemma_store_len(state, slots, values, (k - 1) as nat);
    if i < k - 1 {
        lemma_store_at(state, slots, values, (k - 1) as nat, i);
        assert(slots[k - 1] != slots[i]);
    }
}

/// An author's effect stores what its body computes: every slot that the effect
/// declares to write holds the value that the body computed for it from the
/// effect's parameters. (Where an effect declares one slot twice, the later
/// value stands.)
pub proof fn effect_stores_what_it_computes<M: PlanModel>(
    e: Effect<M>,
    s: ModelState<M>,
    m: M::Mutator,
    values: Seq<M::Component>,
    k: int,
)
    requires
        e.wf(s.len()),
        e.body == EffectBody::<M>::Body(m),
        values == M::mutated(m, Seq::new(e.params@.len(), |i: int| s[e.params@[i] as int])),
        0 <= k < e.writes@.len(),
        k < values.len(),
        forall|j: int|
            k < j < e.writes@.len() && j < values.len() ==> #[trigger] e.writes@[j] != e.writes@[k],
    ensures
        e.result(s)[e.writes@[k] as int] == SlotView::Value(values[k]),
{
    assert(Seq::new(e.params@.len(), |i: int| s[e.params@[i] as int]) =~= gather(s, e.params@));
    lemma_store_at(s, e.writes@, values, stored(e.writes@, values), k);
}

/// A marking effect marks its own shared task as done and leaves the marks of
/// the others as they were.
pub proof fn marking_sets_one_mark<M: PlanModel>(
    e: Effect<M>,
    s: ModelState<M>,
    slot: usize,
    id: usize,
    other: int,
)
    requires
        e.wf(s.len()),
        e.body == (EffectBody::<M>::Mark { slot, id }),
        s[slot as int] is Marks,
    ensures
        is_marked(e.result(s)[slot as int], id as int),
        other != id ==> is_marked(e.result(s)[slot as int], other) == is_marked(
            s[slot as int],
            other,
        ),
{
    assert(e.result(s)[slot as int] == with_mark(s[slot as int], id as int));
}

/// Once a shared task is marked as done, no check that it is still open holds,
/// and every check that it is done does. Before, the task's completion check
/// holds only where one of its gates fails.
pub proof fn marking_settles_the_checks<M: PlanModel>(
    e: Effect<M>,
    s: ModelState<M>,
    slot: usize,
    id: usize,
    open: Precondition<M>,
    done: Precondition<M>,
)
    requires
        e.wf(s.len()),
        e.body == (EffectBody::<M>::Mark { slot, id }),
        s[slot as int] is Marks,
        open.check == (CompiledCheck::<M>::SharedOpen { slot, id }),
        done.check matches CompiledCheck::SharedDone { slot: at, id: of, gates } && at == slot && of
            == id,
    ensures
        !open.holds(e.result(s)),
        done.holds(e.result(s)),
        open.holds(s) && done.holds(s) ==> exists|i: int|
            0 <= i < done.check->gates@.len() && !M::check_holds(
                (#[trigger] done.check->gates@[i]).check,
                gather(s, done.check->gates@[i].reads@),
            ),
        !open.holds(s) ==> done.holds(s),
{
    marking_sets_one_mark(e, s, slot, id, 0);
    if open.holds(s) && done.holds(s) {
        let i = choose|i: int|
            0 <= i < done.check->gates@.len() && !(#[trigger] done.check->gates@[i]).holds(s);
        assert(!M::check_holds(
            done.check->gates@[i].check,
            gather(s, done.check->gates@[i].reads@),
        ));
    }
}

/// Effects apply one after the other, in order: a single one has its own result,
/// and a list has that of its tail on that of its head.
pub proof fn effects_apply_in_order<M: PlanModel>(
    first: Seq<Effect<M>>,
    rest: Seq<Effect<M>>,
    e: Effect<M>,
    s: ModelState<M>,
)
    ensures
        apply_all(Seq::<Effect<M>>::empty(), s) == s,
        apply_all(seq![e], s) == e.result(s),
        apply_all(first + rest, s) == apply_all(rest, apply_all(first, s)),
    decreases rest.len(),
{
    assert(seq![e].drop_last() =~= Seq::<Effect<M>>::empty());
    reveal_with_fuel(apply_all, 2);
    if rest.len() == 0 {
        assert(first + rest =~= first);
    } else {
        effects_apply_in_order(first, rest.drop_last(), e, s);
        assert((first + rest).drop_last() =~= first + rest.drop_last());
        assert((first + rest).last() == rest.last());
    }
}

/// What the last effect that writes a slot stores there, later effects leave
/// alone.
pub proof fn the_last_writer_decides<M: PlanModel>(
    before: Seq<Effect<M>>,
    e: Effect<M>,
    after: Seq<Effect<M>>,
    s: ModelState<M>,
    i: int,
)
    requires
        effects_fit(before + seq![e] + after, s.len()),
        0 <= i < s.len(),
        forall|k: int, j: int|
            0 <= k < after.len() && 0 <= j < after[k].writes@.len()
                ==> #[trigger] after[k].writes@[j] != i,
    ensures
        apply_all(before + seq![e] + after, s)[i] == e.result(apply_all(before, s))[i],
{
    let all = before + seq![e] + after;
    let mid = apply_all(before + seq![e], s);
    effects_apply_in_order(before + seq![e], after, e, s);
    effects_apply_in_order(before, seq![e], e, s);
    effects_apply_in_order(before, after, e, apply_all(before, s));
    assert forall|k: int| 0 <= k < before.len() implies (#[trigger] before[k]).wf(s.len()) by {
        assert(all[k] == before[k]);
    }
    assert(all[before.len() as int] == e);
    assert forall|k: int| 0 <= k < after.len() implies (#[trigger] after[k]).wf(s.len()) by {
        assert(all[before.len() + 1 + k] == after[k]);
    }
    lemma_apply_all_len(before, s);
    lemma_result_len(e, apply_all(before, s));
    lemma_apply_all_frame(after, mid, i);
}

/// A list of preconditions holds where each of them does, and only there.
pub proof fn preconditions_hold_together<M: PlanModel>(
    ps: Seq<Precondition<M>>,
    qs: Seq<Precondition<M>>,
    p: Precondition<M>,
    s: ModelState<M>,
)
    ensures
        all_hold(Seq::<Precondition<M>>::empty(), s),
        all_hold(seq![p], s) == p.holds(s),
        all_hold(ps + qs, s) == (all_hold(ps, s) && all_hold(qs, s)),
{
    assert(seq![p][0] == p);
    if all_hold(ps + qs, s) {
        assert forall|i: int| 0 <= i < ps.len() implies (#[trigger] ps[i]).holds(s) by {
            assert((ps + qs)[i] == ps[i]);
        }
        assert forall|i: int| 0 <= i < qs.len() implies (#[trigger] qs[i]).holds(s) by {
            assert((ps + qs)[ps.len() + i] == qs[i]);
        }
    }
}

} // verus!
