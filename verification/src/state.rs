//! The planning scratchpad: the components that an agent's domain touches,
//! plus the registry that maps component types to slot indices.
//!
//! At plan time every registered component is copied into a [`PlanState`]
//! (missing components take their default), and the whole search runs on that
//! scratchpad: preconditions read it, effects change it, backtracking restores
//! it. The real world is never touched.

use crate::names::{name_text, text_of};
use crate::text::{last_segment, short_name};
use ustr::Ustr;
use vstd::prelude::*;

verus! {

/// A component value that can take part in planning: it can be copied
/// (snapshots, rollback) and has a default per component type (an agent that
/// lacks the component plans with that).
pub trait PlanComponent: Sized {
    /// The default of the component type with identity `key`.
    spec fn default_spec(key: u64) -> Self;

    /// The default of the component type with identity `key`.
    fn default_component(key: u64) -> (c: Self)
        ensures
            c == Self::default_spec(key),
    ;

    /// A copy of this value.
    fn clone_component(&self) -> (c: Self)
        ensures
            c == *self,
    ;
}

/// What a registered slot holds.
#[derive(Clone, Copy, Debug, PartialEq, Eq, Structural)]
pub enum SlotKey {
    /// The component type with this identity.
    Component(u64),
    /// The completion markers of shared tasks.
    SharedMarks,
}

/// One registered component slot.
#[derive(Clone, Copy, Debug)]
pub struct SlotInfo {
    /// What the slot holds.
    pub key: SlotKey,
    /// The component's name, for display.
    pub name: Ustr,
}

/// The frozen registry of a baked domain: every component type that the
/// domain's preconditions and effects touch, with dense slot indices.
#[derive(Debug)]
pub struct ComponentRegistry {
    /// The registered slots.
    pub slots: Vec<SlotInfo>,
}

/// Completion markers, indexed by the shared task's ordinal. They live only in
/// the scratchpad and are never committed to the real entity.
#[derive(Debug)]
pub struct SharedMarks(pub Vec<bool>);

/// One slot's value.
#[derive(Debug)]
pub enum Slot<C> {
    /// A component value.
    Value(C),
    /// The completion markers of shared tasks.
    Marks(SharedMarks),
}

/// The mathematical value of one slot.
pub enum SlotView<C> {
    /// A component value.
    Value(C),
    /// The completion markers of shared tasks.
    Marks(Seq<bool>),
}

/// A scratchpad's mathematical value: one entry per slot.
pub type StateView<C> = Seq<SlotView<C>>;

impl<C> Slot<C> {
    pub open spec fn view(&self) -> SlotView<C> {
        match self {
            Slot::Value(c) => SlotView::Value(*c),
            Slot::Marks(m) => SlotView::Marks(m.0@),
        }
    }
}

/// The planning scratchpad: every registered component, by slot index.
#[derive(Debug)]
pub struct PlanState<C> {
    /// The slot values.
    pub slots: Vec<Slot<C>>,
}

impl<C> View for PlanState<C> {
    type V = StateView<C>;

    open spec fn view(&self) -> StateView<C> {
        Seq::new(self.slots@.len(), |i: int| self.slots@[i].view())
    }
}

/// The values of the given slots, in the order of the indices.
pub open spec fn gather<C>(state: StateView<C>, slots: Seq<usize>) -> StateView<C> {
    Seq::new(slots.len(), |i: int| state[slots[i] as int])
}

/// Whether every index is below `n`.
pub open spec fn in_range(slots: Seq<usize>, n: nat) -> bool {
    forall|i: int| 0 <= i < slots.len() ==> (#[trigger] slots[i]) < n
}

/// Copies a vector of flags.
pub(crate) fn copy_flags(v: &Vec<bool>) -> (r: Vec<bool>)
    ensures
        r@ == v@,
{
    let mut r: Vec<bool> = Vec::new();
    for i in 0..v.len()
        invariant
            r@ == v@.take(i as int),
    {
        r.push(v[i]);
        assert(v@.take(i + 1) =~= v@.take(i as int).push(v@[i as int]));
    }
    assert(v@.take(v@.len() as int) =~= v@);
    r
}

/// Copies a vector of indices.
pub(crate) fn copy_indices(v: &Vec<usize>) -> (r: Vec<usize>)
    ensures
        r@ == v@,
{
    let mut r: Vec<usize> = Vec::new();
    for i in 0..v.len()
        invariant
            r@ == v@.take(i as int),
    {
        r.push(v[i]);
        assert(v@.take(i + 1) =~= v@.take(i as int).push(v@[i as int]));
    }
    assert(v@.take(v@.len() as int) =~= v@);
    r
}

impl<C: PlanComponent> Slot<C> {
    /// A copy of this slot's value.
    pub(crate) fn duplicate(&self) -> (r: Slot<C>)
        ensures
            r.view() == self.view(),
    {
        match self {
            Slot::Value(c) => Slot::Value(c.clone_component()),
            Slot::Marks(m) => Slot::Marks(SharedMarks(copy_flags(&m.0))),
        }
    }
}

impl<C> PlanState<C> {
    /// The number of slots.
    pub fn len(&self) -> (n: usize)
        ensures
            n == self@.len(),
    {
        self.slots.len()
    }

    /// Whether the scratchpad has no slots.
    pub fn is_empty(&self) -> (b: bool)
        ensures
            b == (self@.len() == 0),
    {
        self.slots.len() == 0
    }

    /// The component value at slot `idx`; `None` for the marker slot.
    pub fn get(&self, idx: usize) -> (value: Option<&C>)
        requires
            idx < self@.len(),
        ensures
            match value {
                Some(c) => self@[idx as int] == SlotView::Value(*c),
                None => self@[idx as int] is Marks,
            },
    {
        match &self.slots[idx] {
            Slot::Value(c) => Some(c),
            Slot::Marks(_) => None,
        }
    }

    /// Stores `value` at slot `idx`.
    pub fn put(&mut self, idx: usize, value: Slot<C>)
        requires
            idx < old(self)@.len(),
        ensures
            final(self)@ == old(self)@.update(idx as int, value.view()),
    {
        self.slots.set(idx, value);
        assert(self@ =~= old(self)@.update(idx as int, value.view()));
    }

    /// Whether the shared task with ordinal `id` is marked at slot `idx`.
    pub(crate) fn marked(&self, idx: usize, id: usize) -> (b: bool)
        requires
            idx < self@.len(),
        ensures
            b == is_marked(self@[idx as int], id as int),
    {
        match &self.slots[idx] {
            Slot::Value(_) => false,
            Slot::Marks(m) => id < m.0.len() && m.0[id],
        }
    }
}

/// Whether a slot marks the shared task with ordinal `id` as done.
pub open spec fn is_marked<C>(slot: SlotView<C>, id: int) -> bool {
    slot matches SlotView::Marks(m) && 0 <= id < m.len() && m[id]
}

/// A slot's value after the shared task with ordinal `id` is marked: the
/// markers grow as far as needed, and that one is set. A component value stays
/// as it is.
pub open spec fn with_mark<C>(slot: SlotView<C>, id: int) -> SlotView<C> {
    match slot {
        SlotView::Value(c) => SlotView::Value(c),
        SlotView::Marks(m) => SlotView::Marks(
            Seq::new(
                if m.len() <= id {
                    (id + 1) as nat
                } else {
                    m.len()
                },
                |i: int| i == id || (i < m.len() && m[i]),
            ),
        ),
    }
}

impl<C: PlanComponent> PlanState<C> {
    /// A copy of the scratchpad.
    pub fn duplicate(&self) -> (r: PlanState<C>)
        ensures
            r@ == self@,
    {
        let mut slots: Vec<Slot<C>> = Vec::new();
        for i in 0..self.slots.len()
            invariant
                slots@.len() == i,
                forall|k: int| 0 <= k < i ==> (#[trigger] slots@[k]).view() == self.slots@[k].view(),
        {
            slots.push(self.slots[i].duplicate());
        }
        let r = PlanState { slots };
        assert(r@ =~= self@);
        r
    }

    /// Copies the slot values of `src` into this scratchpad.
    pub fn copy_from(&mut self, src: &PlanState<C>)
        requires
            old(self)@.len() == src@.len(),
        ensures
            final(self)@ == src@,
    {
        let copied = src.duplicate();
        self.slots = copied.slots;
        assert(self@ =~= src@);
    }

    /// Marks the shared task with ordinal `id` at slot `idx`.
    pub(crate) fn mark(&mut self, idx: usize, id: usize)
        requires
            idx < old(self)@.len(),
            id < usize::MAX,
        ensures
            final(self)@ == old(self)@.update(idx as int, with_mark(old(self)@[idx as int], id as int)),
    {
        let current = self.slots[idx].duplicate();
        let ghost before = current.view();
        let updated = match current {
            Slot::Value(c) => Slot::Value(c),
            Slot::Marks(m) => {
                let mut flags = m.0;
                let ghost old_flags = flags@;
                while flags.len() <= id
                    invariant
                        old_flags.len() <= flags@.len(),
                        flags@.len() <= id + 1 || flags@.len() == old_flags.len(),
                        forall|i: int|
                            0 <= i < flags@.len() ==> (#[trigger] flags@[i]) == (i < old_flags.len()
                                && old_flags[i]),
                    decreases id + 1 - flags@.len(),
                {
                    flags.push(false);
                }
                flags.set(id, true);
                assert(SlotView::<C>::Marks(flags@) == with_mark(
                    SlotView::<C>::Marks(old_flags),
                    id as int,
                )) by {
                    assert(with_mark(SlotView::<C>::Marks(old_flags), id as int)->Marks_0
                        =~= flags@);
                }
                Slot::Marks(SharedMarks(flags))
            },
        };
        assert(updated.view() == with_mark(before, id as int));
        self.put(idx, updated);
    }
}

impl<C> Default for PlanState<C> {
    /// An empty scratchpad (no slots).
    fn default() -> (r: PlanState<C>)
        ensures
            r@ == Seq::<SlotView<C>>::empty(),
    {
        let r = PlanState { slots: Vec::new() };
        assert(r@ =~= Seq::<SlotView<C>>::empty());
        r
    }
}

/// A set of component slots.
#[derive(Debug)]
pub struct FieldSet {
    members: Vec<bool>,
}

impl FieldSet {
    /// The number of slots of the universe that the set is drawn from.
    pub closed spec fn universe(&self) -> nat {
        self.members@.len()
    }

    /// Whether slot `i` is in the set.
    pub closed spec fn has(&self, i: int) -> bool {
        0 <= i < self.members@.len() && self.members@[i]
    }

    /// The slots in the set.
    pub open spec fn view(&self) -> Set<int> {
        Set::new(|i: int| self.has(i))
    }

    /// The empty set over `n` slots.
    pub fn new(n: usize) -> (s: FieldSet)
        ensures
            s.universe() == n,
            forall|i: int| !s.has(i),
    {
        let mut members: Vec<bool> = Vec::new();
        for k in 0..n
            invariant
                members@.len() == k,
                forall|i: int| 0 <= i < k ==> !members@[i],
        {
            members.push(false);
        }
        FieldSet { members }
    }

    /// Adds slot `i`.
    pub fn insert(&mut self, i: usize)
        requires
            i < old(self).universe(),
        ensures
            final(self).universe() == old(self).universe(),
            forall|k: int| #[trigger] final(self).has(k) == (old(self).has(k) || k == i),
    {
        self.members.set(i, true);
    }

    /// Whether slot `i` is in the set.
    pub fn contains(&self, i: usize) -> (b: bool)
        ensures
            b == self.has(i as int),
    {
        i < self.members.len() && self.members[i]
    }

    /// Adds every slot of `other`.
    pub fn union_with(&mut self, other: &FieldSet)
        requires
            old(self).universe() == other.universe(),
        ensures
            final(self).universe() == old(self).universe(),
            forall|k: int| #[trigger] final(self).has(k) == (old(self).has(k) || other.has(k)),
    {
        let n: usize = self.members.len();
        for i in 0..n
            invariant
                n == self.members@.len() == other.members@.len(),
                n == old(self).members@.len(),
                forall|k: int|
                    0 <= k < i ==> (#[trigger] self.members@[k]) == (old(self).members@[k]
                        || other.members@[k]),
                forall|k: int|
                    i <= k < n ==> (#[trigger] self.members@[k]) == old(self).members@[k],
        {
            if other.members[i] {
                self.members.set(i, true);
            }
        }
    }

    /// Removes every slot that `other` does not hold.
    pub fn intersect_with(&mut self, other: &FieldSet)
        requires
            old(self).universe() == other.universe(),
        ensures
            final(self).universe() == old(self).universe(),
            forall|k: int| #[trigger] final(self).has(k) == (old(self).has(k) && other.has(k)),
    {
        let n: usize = self.members.len();
        for i in 0..n
            invariant
                n == self.members@.len() == other.members@.len(),
                n == old(self).members@.len(),
                forall|k: int|
                    0 <= k < i ==> (#[trigger] self.members@[k]) == (old(self).members@[k]
                        && other.members@[k]),
                forall|k: int|
                    i <= k < n ==> (#[trigger] self.members@[k]) == old(self).members@[k],
        {
            if !other.members[i] {
                self.members.set(i, false);
            }
        }
    }

    /// Removes every slot.
    pub fn clear(&mut self)
        ensures
            final(self).universe() == old(self).universe(),
            forall|k: int| !final(self).has(k),
    {
        let n: usize = self.members.len();
        for i in 0..n
            invariant
                n == self.members@.len(),
                n == old(self).members@.len(),
                forall|k: int| 0 <= k < i ==> !#[trigger] self.members@[k],
        {
            self.members.set(i, false);
        }
    }

    /// A copy of the set.
    pub fn duplicate(&self) -> (r: FieldSet)
        ensures
            r.universe() == self.universe(),
            forall|k: int| #[trigger] r.has(k) == self.has(k),
    {
        FieldSet { members: copy_flags(&self.members) }
    }

    /// Whether two sets over one universe hold the same slots.
    pub fn same(&self, other: &FieldSet) -> (b: bool)
        requires
            self.universe() == other.universe(),
        ensures
            b == (forall|k: int| #[trigger] self.has(k) == other.has(k)),
    {
        let n: usize = self.members.len();
        for i in 0..n
            invariant
                n == self.members@.len() == other.members@.len(),
                forall|k: int| 0 <= k < i ==> self.members@[k] == other.members@[k],
        {
            if self.members[i] != other.members[i] {
                assert(self.has(i as int) != other.has(i as int));
                return false;
            }
        }
        true
    }

    /// The slots in the set, ascending.
    pub fn indices(&self) -> (v: Vec<usize>)
        ensures
            forall|k: int| #[trigger] self.has(k) <==> (exists|j: int|
                0 <= j < v@.len() && v@[j] == k),
            forall|i: int, j: int| 0 <= i < j < v@.len() ==> v@[i] < v@[j],
    {
        let mut v: Vec<usize> = Vec::new();
        let n: usize = self.members.len();
        for i in 0..n
            invariant
                n == self.members@.len(),
                forall|j: int| 0 <= j < v@.len() ==> (#[trigger] v@[j]) < i && self.has(v@[j] as int),
                forall|k: int|
                    0 <= k < i && #[trigger] self.has(k) ==> exists|j: int|
                        0 <= j < v@.len() && v@[j] == k,
                forall|a: int, b: int| 0 <= a < b < v@.len() ==> v@[a] < v@[b],
        {
            if self.members[i] {
                let ghost before = v@;
                v.push(i);
                assert forall|k: int| 0 <= k < i + 1 && #[trigger] self.has(k) implies exists|j: int|
                    0 <= j < v@.len() && v@[j] == k by {
                    if k < i {
                        let j = choose|j: int| 0 <= j < before.len() && before[j] == k;
                        assert(v@[j] == k);
                    } else {
                        assert(v@[before.len() as int] == k);
                    }
                }
            }
        }
        v
    }
}

impl Default for FieldSet {
    /// The empty set over no slots.
    fn default() -> (s: FieldSet)
        ensures
            s.universe() == 0,
            forall|i: int| !s.has(i),
    {
        FieldSet { members: Vec::new() }
    }
}

/// The first slot from `k` on that holds what `key` names.
pub open spec fn slot_from(slots: Seq<SlotInfo>, key: SlotKey, k: nat) -> Option<usize>
    decreases slots.len() - k,
{
    if k >= slots.len() {
        None
    } else if slots[k as int].key == key {
        Some(k as usize)
    } else {
        slot_from(slots, key, k + 1)
    }
}

/// The slot that holds what `key` names, if one is registered.
pub open spec fn slot_of(slots: Seq<SlotInfo>, key: SlotKey) -> Option<usize> {
    slot_from(slots, key, 0)
}

/// A slot that is found is in range and holds what was asked for.
pub proof fn lemma_slot_found(slots: Seq<SlotInfo>, key: SlotKey, k: nat)
    requires
        slots.len() <= usize::MAX,
    ensures
        slot_from(slots, key, k) matches Some(i) ==> k <= i < slots.len() && slots[i as int].key
            == key,
    decreases slots.len() - k,
{
    if k < slots.len() && slots[k as int].key != key {
        lemma_slot_found(slots, key, k + 1);
    }
}

fn find_slot(slots: &Vec<SlotInfo>, key: SlotKey) -> (found: Option<usize>)
    ensures
        found == slot_of(slots@, key),
        found matches Some(i) ==> i < slots@.len(),
{
    for i in 0..slots.len()
        invariant
            slot_of(slots@, key) == slot_from(slots@, key, i as nat),
    {
        if slots[i].key == key {
            return Some(i);
        }
    }
    None
}

/// The slots after what `key` names is asked for: it is registered behind the
/// others where it is not registered yet.
pub open spec fn registered(slots: Seq<SlotInfo>, info: SlotInfo) -> Seq<SlotInfo> {
    if slot_of(slots, info.key) is Some {
        slots
    } else {
        slots.push(info)
    }
}

/// The index at which what `key` names stands after it is asked for.
pub open spec fn registered_at(slots: Seq<SlotInfo>, key: SlotKey) -> usize {
    match slot_of(slots, key) {
        Some(i) => i,
        None => slots.len() as usize,
    }
}

/// The registry while a domain is recorded: it collects the component types that
/// the domain touches and gives each a dense slot index.
#[derive(Debug)]
pub struct RegistryBuilder {
    /// The slots registered so far.
    pub slots: Vec<SlotInfo>,
}

impl Default for RegistryBuilder {
    fn default() -> (r: RegistryBuilder)
        ensures
            r.slots@ == Seq::<SlotInfo>::empty(),
    {
        RegistryBuilder { slots: Vec::new() }
    }
}

impl RegistryBuilder {
    /// The slot index of what `key` names, which is registered under `name` on
    /// first use.
    pub fn index(&mut self, key: SlotKey, name: Ustr) -> (i: usize)
        ensures
            final(self).slots@ == registered(old(self).slots@, SlotInfo { key, name }),
            i == registered_at(old(self).slots@, key),
            i < final(self).slots@.len(),
    {
        match find_slot(&self.slots, key) {
            Some(i) => i,
            None => {
                let i: usize = self.slots.len();
                self.slots.push(SlotInfo { key, name });
                i
            },
        }
    }

    /// Ends registration.
    pub fn freeze(self) -> (r: ComponentRegistry)
        ensures
            r.slots@ == self.slots@,
    {
        ComponentRegistry { slots: self.slots }
    }

    /// The number of registered slots.
    pub fn len(&self) -> (n: usize)
        ensures
            n == self.slots@.len(),
    {
        self.slots.len()
    }

    /// Whether nothing is registered.
    pub fn is_empty(&self) -> (b: bool)
        ensures
            b == (self.slots@.len() == 0),
    {
        self.slots.len() == 0
    }
}

impl ComponentRegistry {
    /// Whether the component type with identity `key` is registered.
    pub fn contains(&self, key: u64) -> (b: bool)
        ensures
            b == (slot_of(self.slots@, SlotKey::Component(key)) is Some),
    {
        self.get(key).is_some()
    }

    /// The slot index of the component type with identity `key`, if registered.
    pub fn get(&self, key: u64) -> (i: Option<usize>)
        ensures
            i == slot_of(self.slots@, SlotKey::Component(key)),
    {
        find_slot(&self.slots, SlotKey::Component(key))
    }

    /// The number of registered slots.
    pub fn len(&self) -> (n: usize)
        ensures
            n == self.slots@.len(),
    {
        self.slots.len()
    }

    /// Whether nothing is registered.
    pub fn is_empty(&self) -> (b: bool)
        ensures
            b == (self.slots@.len() == 0),
    {
        self.slots.len() == 0
    }

    /// The short name of the component type at slot `idx`.
    pub fn name_of(&self, idx: usize) -> (name: &'static str)
        requires
            idx < self.slots@.len(),
        ensures
            name@ == last_segment(text_of(self.slots@[idx as int].name)),
    {
        short_name(name_text(self.slots[idx].name))
    }
}

/// What a hand-built scratchpad holds at a slot: the value that was set, or the
/// default; no shared task is marked.
pub open spec fn built_slot<C: PlanComponent>(info: SlotInfo, value: Option<C>) -> SlotView<C> {
    match info.key {
        SlotKey::Component(key) => SlotView::Value(
            match value {
                Some(c) => c,
                None => C::default_spec(key),
            },
        ),
        SlotKey::SharedMarks => SlotView::Marks(Seq::empty()),
    }
}

/// Builds a scratchpad from component values.
pub struct PlanStateBuilder<C> {
    /// The registered slots.
    pub slots: Vec<SlotInfo>,
    /// The values set so far, by slot.
    pub values: Vec<Option<C>>,
}

impl<C: PlanComponent> PlanState<C> {
    /// Begins building a scratchpad from component values. Slots that are not
    /// set take their default on [`PlanStateBuilder::finish`].
    pub fn build(registry: &ComponentRegistry) -> (b: PlanStateBuilder<C>)
        ensures
            b.slots@ == registry.slots@,
            b.wf(),
            forall|i: int| 0 <= i < b.values@.len() ==> (#[trigger] b.values@[i]) is None,
    {
        let mut slots: Vec<SlotInfo> = Vec::new();
        let mut values: Vec<Option<C>> = Vec::new();
        for i in 0..registry.slots.len()
            invariant
                slots@ == registry.slots@.take(i as int),
                values@.len() == i,
                forall|k: int| 0 <= k < i ==> (#[trigger] values@[k]) is None,
        {
            slots.push(registry.slots[i]);
            values.push(None);
            assert(registry.slots@.take(i + 1) =~= registry.slots@.take(i as int).push(
                registry.slots@[i as int],
            ));
        }
        assert(registry.slots@.take(registry.slots@.len() as int) =~= registry.slots@);
        PlanStateBuilder { slots, values }
    }
}

impl<C: PlanComponent> PlanStateBuilder<C> {
    /// Whether there is one entry per slot.
    pub open spec fn wf(&self) -> bool {
        self.values@.len() == self.slots@.len()
    }

    /// Sets the value of the component type with identity `key`; nothing changes
    /// where it is not registered.
    #[must_use]
    pub fn set(self, key: u64, value: C) -> (b: PlanStateBuilder<C>)
        requires
            self.wf(),
        ensures
            b.wf(),
            b.slots@ == self.slots@,
            b.values@ == (match slot_of(self.slots@, SlotKey::Component(key)) {
                Some(i) => self.values@.update(i as int, Some(value)),
                None => self.values@,
            }),
    {
        let mut b = self;
        match find_slot(&b.slots, SlotKey::Component(key)) {
            Some(i) => {
                b.values.set(i, Some(value));
            },
            None => {},
        }
        b
    }

    /// Gives every slot that is not set its default, and ends building.
    #[must_use]
    pub fn finish(self) -> (state: PlanState<C>)
        requires
            self.wf(),
        ensures
            state@ == Seq::new(
                self.slots@.len(),
                |i: int| built_slot(self.slots@[i], self.values@[i]),
            ),
    {
        let mut slots: Vec<Slot<C>> = Vec::new();
        let keys = self.slots;
        let ghost given = self.values@;
        let mut values = self.values;
        // The values are taken out one by one, last first, so none is copied.
        let mut reversed: Vec<Slot<C>> = Vec::new();
        while values.len() > 0
            invariant
                values@ == given.take(values@.len() as int),
                values@.len() <= given.len(),
                given.len() == keys@.len(),
                reversed@.len() == given.len() - values@.len(),
                forall|k: int|
                    0 <= k < reversed@.len() ==> (#[trigger] reversed@[k]).view() == built_slot(
                        keys@[given.len() - 1 - k],
                        given[given.len() - 1 - k],
                    ),
            decreases values@.len(),
        {
            let i: usize = values.len() - 1;
            let value = values.pop().unwrap();
            assert(value == given[i as int]);
            let slot = match keys[i].key {
                SlotKey::Component(key) => Slot::Value(
                    match value {
                        Some(c) => c,
                        None => C::default_component(key),
                    },
                ),
                SlotKey::SharedMarks => {
                    let flags: Vec<bool> = Vec::new();
                    assert(flags@ =~= Seq::<bool>::empty());
                    Slot::Marks(SharedMarks(flags))
                },
            };
            reversed.push(slot);
        }
        while reversed.len() > 0
            invariant
                slots@.len() + reversed@.len() == keys@.len(),
                given.len() == keys@.len(),
                forall|k: int|
                    0 <= k < reversed@.len() ==> (#[trigger] reversed@[k]).view() == built_slot(
                        keys@[given.len() - 1 - k],
                        given[given.len() - 1 - k],
                    ),
                forall|k: int|
                    0 <= k < slots@.len() ==> (#[trigger] slots@[k]).view() == built_slot(
                        keys@[k],
                        given[k],
                    ),
            decreases reversed@.len(),
        {
            slots.push(reversed.pop().unwrap());
        }
        let state = PlanState { slots };
        assert(state@ =~= Seq::new(keys@.len(), |i: int| built_slot(keys@[i], given[i])));
        state
    }
}

impl<C: PlanComponent> PlanState<C> {
    /// The scratchpad of an entity: `values` holds the entity's component for
    /// each slot, where it has it; a component that it lacks takes its default.
    pub fn extract(registry: &ComponentRegistry, values: Vec<Option<C>>) -> (state: PlanState<C>)
        requires
            values@.len() == registry.slots@.len(),
        ensures
            state@ == Seq::new(
                registry.slots@.len(),
                |i: int| built_slot(registry.slots@[i], values@[i]),
            ),
    {
        let empty: PlanStateBuilder<C> = PlanState::build(registry);
        PlanStateBuilder { slots: empty.slots, values }.finish()
    }

    /// Takes an entity's components over again: what the scratchpad held before
    /// is gone.
    pub fn refresh(&mut self, registry: &ComponentRegistry, values: Vec<Option<C>>)
        requires
            values@.len() == registry.slots@.len(),
        ensures
            final(self)@ == Seq::new(
                registry.slots@.len(),
                |i: int| built_slot(registry.slots@[i], values@[i]),
            ),
    {
        *self = PlanState::extract(registry, values);
    }
}

/// Looking a slot up finds the first one that holds what is asked for, and finds
/// none only where no slot holds it.
pub proof fn slots_are_found_by_key(slots: Seq<SlotInfo>, key: SlotKey, k: nat)
    requires
        slots.len() <= usize::MAX,
    ensures
        match slot_from(slots, key, k) {
            Some(i) => k <= i < slots.len() && slots[i as int].key == key && forall|j: int|
                k <= j < i ==> (#[trigger] slots[j]).key != key,
            None => forall|j: int| k <= j < slots.len() ==> (#[trigger] slots[j]).key != key,
        },
    decreases slots.len() - k,
{
    if k < slots.len() && slots[k as int].key != key {
        slots_are_found_by_key(slots, key, k + 1);
    }
}

/// Registering gives each key one slot and moves none: the slots from before stay
/// where they are, what was asked for stands at the index that is handed out, and
/// a slot is added exactly where its key is new. Asking again changes nothing.
pub proof fn registering_moves_no_slot(slots: Seq<SlotInfo>, info: SlotInfo)
    requires
        slots.len() < usize::MAX,
    ensures
        ({
            let after = registered(slots, info);
            let at = registered_at(slots, info.key) as int;
            &&& slots.len() <= after.len() <= slots.len() + 1
            &&& forall|i: int| 0 <= i < slots.len() ==> #[trigger] after[i] == slots[i]
            &&& 0 <= at < after.len()
            &&& after[at].key == info.key
            &&& after.len() == slots.len() + 1 <==> forall|i: int|
                0 <= i < slots.len() ==> (#[trigger] slots[i]).key != info.key
            &&& after.len() == slots.len() + 1 ==> after[at] == info
            &&& registered(after, info) == after
            &&& registered_at(after, info.key) == registered_at(slots, info.key)
        }),
{
    let after = registered(slots, info);
    slots_are_found_by_key(slots, info.key, 0);
    slots_are_found_by_key(after, info.key, 0);
    if slot_of(slots, info.key) is None {
        assert(after[slots.len() as int] == info);
        let i = slot_of(after, info.key)->Some_0 as int;
        if i < slots.len() {
            assert(slots[i].key != info.key);
        }
    }
}

/// What is gathered from a state are the values of the slots, one for each index.
pub proof fn gathered_values_are_the_slots<C>(state: StateView<C>, slots: Seq<usize>, i: int)
    requires
        0 <= i < slots.len(),
    ensures
        gather(state, slots).len() == slots.len(),
        gather(state, slots)[i] == state[slots[i] as int],
{
}

/// A built scratchpad holds what was set: a component's value where one was set,
/// its default where none was; and no shared task is marked in it.
pub proof fn built_slots_hold_what_was_set<C: PlanComponent>(
    info: SlotInfo,
    value: Option<C>,
    id: int,
)
    ensures
        info.key matches SlotKey::Component(key) ==> {
            &&& value matches Some(c) ==> built_slot(info, value) == SlotView::Value(c)
            &&& value is None ==> built_slot(info, value) == SlotView::Value(C::default_spec(key))
        },
        info.key is SharedMarks ==> built_slot(info, value) is Marks,
        !is_marked(built_slot(info, value), id),
{
}

} // verus!
