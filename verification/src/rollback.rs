//! The search's rollback journal: copies of the slot values that effects
//! overwrote, newest last.

use crate::model::{
    apply_all, effect_changes_its_writes_alone, effects_fit, lemma_apply_all_len, lemma_result_len, Effect,
    ModelState, PlanModel,
};
use crate::state::{PlanComponent, PlanState, Slot, SlotView, StateView};
use vstd::prelude::*;

verus! {

/// One journal entry: a slot and the value it had.
pub type JournalEntry<C> = (usize, SlotView<C>);

/// The state that a journal leads back to when it is undone down to `len`
/// entries, newest first.
pub open spec fn rewound<C>(state: StateView<C>, ops: Seq<JournalEntry<C>>, len: nat) -> StateView<C>
    decreases ops.len(),
{
    if ops.len() <= len {
        state
    } else {
        rewound(state.update(ops.last().0 as int, ops.last().1), ops.drop_last(), len)
    }
}

/// The rollback journal.
pub struct Rollback<C> {
    ops: Vec<(usize, Slot<C>)>,
}

impl<C> Rollback<C> {
    /// The journal's entries, oldest first.
    pub closed spec fn view(&self) -> Seq<JournalEntry<C>> {
        Seq::new(self.ops@.len(), |i: int| (self.ops@[i].0, self.ops@[i].1.view()))
    }
}

impl<C: PlanComponent> Rollback<C> {
    /// An empty journal.
    pub fn new() -> (r: Rollback<C>)
        ensures
            r.view() == Seq::<JournalEntry<C>>::empty(),
    {
        let r = Rollback { ops: Vec::new() };
        assert(r.view() =~= Seq::<JournalEntry<C>>::empty());
        r
    }

    /// The number of entries.
    pub fn len(&self) -> (n: usize)
        ensures
            n == self.view().len(),
    {
        self.ops.len()
    }

    /// Records the current value of slot `idx`.
    pub fn snapshot(&mut self, state: &PlanState<C>, idx: usize)
        requires
            idx < state@.len(),
        ensures
            final(self).view() == old(self).view().push((idx, state@[idx as int])),
    {
        let copy = state.slots[idx].duplicate();
        self.ops.push((idx, copy));
        assert(self.view() =~= old(self).view().push((idx, state@[idx as int])));
    }

    /// Undoes the journal down to `len` entries, newest first.
    pub fn restore_to(&mut self, len: usize, state: &mut PlanState<C>)
        requires
            len <= old(self).view().len(),
            forall|i: int|
                0 <= i < old(self).view().len() ==> (#[trigger] old(self).view()[i]).0 < old(
                    state,
                )@.len(),
        ensures
            final(self).view() == old(self).view().take(len as int),
            final(state)@ == rewound(old(state)@, old(self).view(), len as nat),
            final(state)@.len() == old(state)@.len(),
    {
        assert(self.view() =~= old(self).view().take(self.view().len() as int));
        while self.ops.len() > len
            invariant
                len <= self.view().len() <= old(self).view().len(),
                self.view().len() == self.ops@.len(),
                self.view() == old(self).view().take(self.view().len() as int),
                forall|i: int|
                    0 <= i < old(self).view().len() ==> (#[trigger] old(self).view()[i]).0 < old(
                        state,
                    )@.len(),
                state@.len() == old(state)@.len(),
                rewound(old(state)@, old(self).view(), len as nat) == rewound(
                    state@,
                    self.view(),
                    len as nat,
                ),
            decreases self.ops@.len(),
        {
            let ghost before = self.view();
            let ghost n = before.len();
            proof {
                assert(before[n - 1] == old(self).view()[n - 1]);
            }
            let popped = self.ops.pop();
            match popped {
                Some((idx, value)) => {
                    proof {
                        assert(self.view() =~= before.drop_last());
                        assert(self.view() =~= old(self).view().take(n - 1));
                    }
                    state.put(idx, value);
                },
                None => {},
            }
        }
        assert(self.view() =~= old(self).view().take(len as int));
    }
}

/// Undoing to `len` is undoing to a longer length first.
proof fn lemma_rewind_in_steps<C>(
    state: StateView<C>,
    ops: Seq<JournalEntry<C>>,
    mid: nat,
    len: nat,
)
    requires
        len <= mid <= ops.len(),
    ensures
        rewound(state, ops, len) == rewound(
            rewound(state, ops, mid),
            ops.take(mid as int),
            len,
        ),
    decreases ops.len(),
{
    if ops.len() == mid {
        assert(ops.take(mid as int) =~= ops);
    } else {
        let before = state.update(ops.last().0 as int, ops.last().1);
        lemma_rewind_in_steps(before, ops.drop_last(), mid, len);
        assert(ops.drop_last().take(mid as int) =~= ops.take(mid as int));
    }
}

/// Undoing a batch of snapshots of `slots` gives back the state in which they
/// were taken, whatever happened to those slots since.
proof fn lemma_rewind_batch<C>(
    before: StateView<C>,
    after: StateView<C>,
    ops: Seq<JournalEntry<C>>,
    slots: Seq<usize>,
)
    requires
        before.len() == after.len(),
        forall|j: int| 0 <= j < slots.len() ==> (#[trigger] slots[j]) < before.len(),
        forall|i: int|
            0 <= i < before.len() && !slots.contains(i as usize) ==> before[i] == after[i],
        before.len() <= usize::MAX,
    ensures
        rewound(
            after,
            ops + Seq::new(slots.len(), |j: int| (slots[j], before[slots[j] as int])),
            ops.len(),
        ) == before,
    decreases slots.len(),
{
    let batch = Seq::new(slots.len(), |j: int| (slots[j], before[slots[j] as int]));
    if slots.len() == 0 {
        assert(ops + batch =~= ops);
        assert(before =~= after);
    } else {
        let front = slots.drop_last();
        let last = slots.last();
        let undone = after.update(last as int, before[last as int]);
        assert forall|i: int|
            0 <= i < before.len() && !front.contains(i as usize) implies before[i] == undone[i] by {
            if i != last {
                assert(!slots.contains(i as usize)) by {
                    if slots.contains(i as usize) {
                        let j = slots.index_of(i as usize);
                        if j < front.len() {
                            assert(front[j] == i as usize);
                        }
                    }
                }
            }
        }
        lemma_rewind_batch(before, undone, ops, front);
        let front_batch = Seq::new(front.len(), |j: int| (front[j], before[front[j] as int]));
        assert((ops + batch).drop_last() =~= ops + front_batch);
        assert((ops + batch).last() == (last, before[last as int]));
    }
}

/// The journal entries that a list of effects, applied from `s`, leaves behind.
pub open spec fn journal_of<M: PlanModel>(es: Seq<Effect<M>>, s: ModelState<M>) -> Seq<
    JournalEntry<M::Component>,
>
    decreases es.len(),
{
    if es.len() == 0 {
        Seq::empty()
    } else {
        let before = apply_all(es.drop_last(), s);
        journal_of(es.drop_last(), s) + Seq::new(
            es.last().writes@.len(),
            |j: int| (es.last().writes@[j], before[es.last().writes@[j] as int]),
        )
    }
}

/// Undoing what a list of effects journaled gives back the state from which
/// they were applied.
pub proof fn undoing_effects_restores_the_state<M: PlanModel>(
    es: Seq<Effect<M>>,
    s: ModelState<M>,
    ops: Seq<JournalEntry<M::Component>>,
)
    requires
        effects_fit(es, s.len()),
        s.len() <= usize::MAX,
    ensures
        rewound(apply_all(es, s), ops + journal_of(es, s), ops.len()) == s,
    decreases es.len(),
{
    if es.len() == 0 {
        assert(ops + journal_of(es, s) =~= ops);
    } else {
        let front = es.drop_last();
        let e = es.last();
        assert(es[es.len() - 1].wf(s.len()));
        let before = apply_all(front, s);
        let after = e.result(before);
        lemma_apply_all_len(front, s);
        lemma_result_len(e, before);
        let ops1 = ops + journal_of(front, s);
        let batch = Seq::new(e.writes@.len(), |j: int| (e.writes@[j], before[e.writes@[j] as int]));
        assert forall|i: int|
            0 <= i < before.len() && !e.writes@.contains(i as usize) implies before[i]
            == after[i] by {
            effect_changes_its_writes_alone(e, before, i);
        }
        lemma_rewind_batch(before, after, ops1, e.writes@);
        assert(ops + journal_of(es, s) =~= ops1 + batch);
        lemma_rewind_in_steps(after, ops1 + batch, ops1.len(), ops.len());
        assert((ops1 + batch).take(ops1.len() as int) =~= ops1);
        undoing_effects_restores_the_state(front, s, ops);
    }
}

proof fn lemma_journal_slots<M: PlanModel>(es: Seq<Effect<M>>, s: ModelState<M>)
    requires
        effects_fit(es, s.len()),
    ensures
        forall|i: int|
            0 <= i < journal_of(es, s).len() ==> (#[trigger] journal_of(es, s)[i]).0 < s.len(),
    decreases es.len(),
{
    if es.len() > 0 {
        lemma_journal_slots(es.drop_last(), s);
        assert(es[es.len() - 1].wf(s.len()));
        let before = journal_of(es.drop_last(), s);
        assert forall|i: int| 0 <= i < journal_of(es, s).len() implies (#[trigger] journal_of(
            es,
            s,
        )[i]).0 < s.len() by {
            if i >= before.len() {
                assert(es.last().writes@[i - before.len()] < s.len());
            } else {
                assert(journal_of(es, s)[i] == before[i]);
            }
        }
    }
}

/// Applies a list of effects, first recording every slot that each is about to
/// write.
pub(crate) fn apply_journaled<M: PlanModel>(
    es: &Vec<Effect<M>>,
    journal: &mut Rollback<M::Component>,
    state: &mut PlanState<M::Component>,
)
    requires
        effects_fit(es@, old(state)@.len()),
    ensures
        final(state)@ == apply_all(es@, old(state)@),
        final(state)@.len() == old(state)@.len(),
        final(journal).view() == old(journal).view() + journal_of(es@, old(state)@),
        rewound(final(state)@, final(journal).view(), old(journal).view().len()) == old(state)@,
        forall|i: int|
            old(journal).view().len() <= i < final(journal).view().len() ==> (
            #[trigger] final(journal).view()[i]).0 < old(state)@.len(),
{
    proof {
        assert(es@.take(0) =~= Seq::empty());
        assert(journal.view() =~= old(journal).view() + journal_of(es@.take(0), old(state)@));
    }
    for i in 0..es.len()
        invariant
            effects_fit(es@, old(state)@.len()),
            state@.len() == old(state)@.len(),
            state@ == apply_all(es@.take(i as int), old(state)@),
            journal.view() == old(journal).view() + journal_of(es@.take(i as int), old(state)@),
    {
        let e = &es[i];
        let ghost front = es@.take(i as int);
        let ghost ops0 = journal.view();
        let ghost s0 = state@;
        for j in 0..e.writes.len()
            invariant
                e.wf(state@.len()),
                s0 == state@,
                journal.view() == ops0 + Seq::new(
                    j as nat,
                    |q: int| (e.writes@[q], s0[e.writes@[q] as int]),
                ),
        {
            journal.snapshot(state, e.writes[j]);
            assert(journal.view() =~= ops0 + Seq::new(
                (j + 1) as nat,
                |q: int| (e.writes@[q], s0[e.writes@[q] as int]),
            ));
        }
        e.apply(state);
        proof {
            let longer = es@.take(i + 1);
            assert(longer.drop_last() =~= front);
            assert(longer.last() == es@[i as int]);
            let batch = Seq::new(
                longer.last().writes@.len(),
                |q: int| (longer.last().writes@[q], s0[longer.last().writes@[q] as int]),
            );
            assert(journal.view() =~= ops0 + batch);
            assert(journal_of(longer, old(state)@) =~= journal_of(front, old(state)@) + batch);
            assert(journal.view() =~= old(journal).view() + journal_of(longer, old(state)@));
        }
    }
    proof {
        assert(es@.take(es@.len() as int) =~= es@);
        assert(old(state)@.len() == old(state).slots.len());
        undoing_effects_restores_the_state(es@, old(state)@, old(journal).view());
        lemma_journal_slots(es@, old(state)@);
        let entries = journal_of(es@, old(state)@);
        assert forall|i: int| old(journal).view().len() <= i < journal.view().len() implies (
        #[trigger] journal.view()[i]).0 < old(state)@.len() by {
            assert(journal.view()[i] == entries[i - old(journal).view().len()]);
        }
    }
}

/// Undoing a longer journal down to a length that an earlier journal had gives
/// what undoing that earlier journal from its own state gives.
pub proof fn lemma_rewind_extends<C>(
    s0: StateView<C>,
    ops0: Seq<JournalEntry<C>>,
    s1: StateView<C>,
    ops1: Seq<JournalEntry<C>>,
    len: nat,
)
    requires
        len <= ops0.len() <= ops1.len(),
        ops1.take(ops0.len() as int) == ops0,
        rewound(s1, ops1, ops0.len()) == s0,
    ensures
        rewound(s1, ops1, len) == rewound(s0, ops0, len),
{
    lemma_rewind_in_steps(s1, ops1, ops0.len(), len);
}

} // verus!
