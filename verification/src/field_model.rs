//! Planning over the fields of a domain file: the model whose components are
//! field values, whose preconditions are conditions, and whose effects are the
//! effects of a domain file.

use crate::conditions::HtnCondition;
use crate::effects::{assignable, can_assign, wrote, Effect, EnumType};
use crate::model::{BranchCandidate, PlanModel};
use crate::names::{intern, text_of};
use crate::state::{gather, in_range, PlanComponent, PlanState, Slot, SlotView, StateView};
use crate::values::{EnumValue, Value};
use ustr::Ustr;
use vstd::prelude::*;

verus! {

/// The model of a domain file.
pub struct FieldModel;

impl PlanComponent for Value {
    /// A field that an agent lacks plans with zero.
    open spec fn default_spec(key: u64) -> Value {
        Value::Int(0)
    }

    fn default_component(key: u64) -> (c: Value) {
        Value::Int(0)
    }

    fn clone_component(&self) -> (c: Value) {
        *self
    }
}

/// An effect as the model runs it: on the field that it writes, and on the field
/// that it copies where it copies one.
#[derive(Debug, Clone, Copy)]
pub struct FieldEffect {
    effect: Effect,
    none: Ustr,
}

impl FieldEffect {
    /// The effect of a domain file.
    pub closed spec fn effect(&self) -> Effect {
        self.effect
    }

    /// The name `None`.
    pub closed spec fn none(&self) -> Ustr {
        self.none
    }

    /// An effect as the model runs it. A float increment is not run: there is
    /// none for it.
    pub fn new(effect: Effect) -> (r: Option<FieldEffect>)
        ensures
            match r {
                Some(f) => f.effect() == effect && !(effect is IncrementFloat) && text_of(f.none())
                    == "None"@,
                None => effect is IncrementFloat,
            },
    {
        match effect {
            Effect::IncrementFloat { .. } => None,
            _ => Some(FieldEffect { effect, none: intern("None") }),
        }
    }

    /// The new value of the field. What does not fit the field leaves it alone: a
    /// value of another type, or a sum out of range.
    pub open spec fn result(&self, value: Value, source: Option<Value>) -> Value {
        match (self.effect(), value) {
            (Effect::SetBool { value: v, .. }, Value::Bool(_)) => Value::Bool(v),
            (Effect::SetInt { value: v, .. }, Value::Int(_)) => Value::Int(v),
            (Effect::SetFloat { value: v, .. }, Value::Float(_)) => Value::Float(v.bits),
            (Effect::SetEnum { enum_variant, .. }, Value::Enum(e)) => Value::Enum(
                EnumValue { variant: enum_variant, data: 0, ..e },
            ),
            (Effect::SetNone { .. }, Value::Enum(e)) => Value::Enum(
                EnumValue { variant: self.none(), data: 0, ..e },
            ),
            (Effect::SetIdentifier { .. }, _) => match source {
                Some(v) => if assignable(value, v) && !(v matches Value::Other(o) && !o.cloneable) {
                    v
                } else {
                    value
                },
                None => value,
            },
            (Effect::IncrementInt { by, .. }, Value::Int(n)) => if i32::MIN <= n + by <= i32::MAX {
                Value::Int((n + by) as i32)
            } else {
                value
            },
            _ => value,
        }
    }

    fn run(&self, value: Value, source: Option<Value>) -> (next: Value)
        ensures
            next == self.result(value, source),
    {
        match (self.effect, value) {
            (Effect::SetBool { value: v, .. }, Value::Bool(_)) => Value::Bool(v),
            (Effect::SetInt { value: v, .. }, Value::Int(_)) => Value::Int(v),
            (Effect::SetFloat { value: v, .. }, Value::Float(_)) => Value::Float(v.bits),
            (Effect::SetEnum { enum_variant, .. }, Value::Enum(e)) => Value::Enum(
                EnumValue { variant: enum_variant, data: 0, ..e },
            ),
            (Effect::SetNone { .. }, Value::Enum(e)) => Value::Enum(
                EnumValue { variant: self.none, data: 0, ..e },
            ),
            (Effect::SetIdentifier { .. }, _) => match source {
                Some(v) => {
                    let copies: bool = match v {
                        Value::Other(o) => o.cloneable,
                        _ => true,
                    };
                    if copies && can_assign(value, v) {
                        v
                    } else {
                        value
                    }
                },
                None => value,
            },
            (Effect::IncrementInt { by, .. }, Value::Int(n)) => {
                let sum: i64 = n as i64 + by as i64;
                if i32::MIN as i64 <= sum && sum <= i32::MAX as i64 {
                    Value::Int(sum as i32)
                } else {
                    value
                }
            },
            _ => value,
        }
    }
}

/// A score: a number, or the integer in a slot.
#[derive(Debug, Clone, Copy, PartialEq, Eq, Structural)]
pub enum FieldScore {
    /// A number.
    Constant(i64),
    /// The integer in this slot; zero where there is none.
    Slot(usize),
}

/// The value at position `i` of the slots that a body is handed.
pub open spec fn arg(args: StateView<Value>, i: int) -> Option<Value> {
    if 0 <= i < args.len() {
        match args[i] {
            SlotView::Value(v) => Some(v),
            SlotView::Marks(_) => None,
        }
    } else {
        None
    }
}

fn read_arg(state: &PlanState<Value>, slots: &Vec<usize>, i: usize) -> (value: Option<Value>)
    requires
        in_range(slots@, state@.len()),
    ensures
        value == arg(gather(state@, slots@), i as int),
{
    if i >= slots.len() {
        return None;
    }
    let slot: usize = slots[i];
    assert(slots@[i as int] < state@.len());
    match &state.slots[slot] {
        Slot::Value(v) => {
            assert(state@[slot as int] == SlotView::Value(*v));
            Some(*v)
        },
        Slot::Marks(_) => None,
    }
}

impl PlanModel for FieldModel {
    type Component = Value;

    type Check = HtnCondition;

    type Mutator = FieldEffect;

    type Score = FieldScore;

    type Ranker = Vec<u32>;

    type Action = Ustr;

    /// A condition is handed its field, and the field that it compares against
    /// where it compares against one.
    open spec fn check_holds(check: HtnCondition, args: StateView<Value>) -> bool {
        arg(args, 0) matches Some(v) && check.holds_of(v, arg(args, 1))
    }

    fn check(check: &HtnCondition, state: &PlanState<Value>, reads: &Vec<usize>) -> (b: bool) {
        match read_arg(state, reads, 0) {
            Some(v) => check.predicate(v, read_arg(state, reads, 1)),
            None => false,
        }
    }

    fn clone_check(check: &HtnCondition) -> (c: HtnCondition) {
        *check
    }

    /// An effect is handed the field that it writes, and the field that it copies
    /// where it copies one.
    open spec fn mutated(mutator: FieldEffect, args: StateView<Value>) -> Seq<Value> {
        match arg(args, 0) {
            Some(v) => seq![mutator.result(v, arg(args, 1))],
            None => Seq::empty(),
        }
    }

    fn mutate(
        mutator: &FieldEffect,
        state: &PlanState<Value>,
        params: &Vec<usize>,
    ) -> (values: Vec<Value>) {
        let mut values: Vec<Value> = Vec::new();
        if let Some(v) = read_arg(state, params, 0) {
            values.push(mutator.run(v, read_arg(state, params, 1)));
        }
        assert(values@ =~= Self::mutated(*mutator, gather(state@, params@)));
        values
    }

    open spec fn score_of(score: FieldScore, state: StateView<Value>) -> i64 {
        match score {
            FieldScore::Constant(n) => n,
            FieldScore::Slot(i) => match arg(state, i as int) {
                Some(Value::Int(n)) => n as i64,
                _ => 0,
            },
        }
    }

    fn score(score: &FieldScore, state: &PlanState<Value>) -> (s: i64) {
        match *score {
            FieldScore::Constant(n) => n,
            FieldScore::Slot(i) => {
                if i < state.slots.len() {
                    match &state.slots[i] {
                        Slot::Value(Value::Int(n)) => {
                            assert(state@[i as int] == SlotView::Value(Value::Int(*n)));
                            *n as i64
                        },
                        _ => 0,
                    }
                } else {
                    0
                }
            },
        }
    }

    /// A ranker is a fixed order of branches.
    open spec fn ranking(
        ranker: Vec<u32>,
        candidates: Seq<BranchCandidate<'_>>,
        state: StateView<Value>,
    ) -> Seq<u32> {
        ranker@
    }

    fn rank(
        ranker: &Vec<u32>,
        candidates: &Vec<BranchCandidate<'_>>,
        state: &PlanState<Value>,
    ) -> (order: Vec<u32>) {
        let mut order: Vec<u32> = Vec::new();
        for i in 0..ranker.len()
            invariant
                order@ == ranker@.take(i as int),
        {
            order.push(ranker[i]);
            assert(ranker@.take(i + 1) =~= ranker@.take(i as int).push(ranker@[i as int]));
        }
        assert(ranker@.take(ranker@.len() as int) =~= ranker@);
        order
    }
}

/// Planning runs an effect as a state does: where the effect fits the field, the
/// value that planning gives it is what the effect writes; where it does not, the
/// field keeps its value or one of its type.
pub proof fn planning_runs_effects_as_written(
    f: FieldEffect,
    value: Value,
    source: Option<Value>,
    types: Seq<EnumType>,
)
    requires
        !(f.effect() is IncrementFloat),
        text_of(f.none()) == "None"@,
    ensures
        f.effect().fits(value, source, types) ==> wrote(
            f.effect(),
            value,
            source,
            f.result(value, source),
            None,
        ),
        assignable(value, f.result(value, source)),
{
}

/// What a body of a domain file is handed are the values of its slots, in order:
/// a condition is checked against the first and the second, and an effect writes
/// one value, made of the same two.
pub proof fn bodies_read_their_slots(
    c: HtnCondition,
    f: FieldEffect,
    args: StateView<Value>,
    value: Value,
    other: Value,
)
    requires
        args.len() == 2,
        args[0] == SlotView::Value(value),
        args[1] == SlotView::Value(other),
    ensures
        FieldModel::check_holds(c, args) == c.holds_of(value, Some(other)),
        FieldModel::check_holds(c, args.take(1)) == c.holds_of(value, None),
        FieldModel::mutated(f, args) == seq![f.result(value, Some(other))],
        FieldModel::mutated(f, args.take(1)) == seq![f.result(value, None)],
        value matches Value::Int(n) ==> FieldModel::score_of(FieldScore::Slot(0), args) == n,
{
    assert(args.take(1)[0] == args[0]);
}

} // verus!
