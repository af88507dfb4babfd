//! Effects of a domain file: writes to the named fields of a plan state.

use crate::conditions::{FloatLiteral, HtnCondition};
use crate::error::{HtnError, HtnResult};
use crate::names::{intern, name_text, same_name, text_of};
use crate::text::{bool_name, bool_text, join3, signed, signed_text};
use crate::values::{
    fields_are_found_by_name, float_rank, is_registered, same_value, type_known, EnumValue, FieldState,
    Value,
};
use bevy_reflect::TypeRegistry;
use ustr::Ustr;
use vstd::prelude::*;
use vstd::string::StrSliceExecFns;

verus! {

/// A write to a state field, as it stands in a domain file.
#[derive(Debug, Clone, Copy)]
#[allow(inconsistent_fields)]
pub enum Effect {
    /// Set a boolean field to a literal.
    SetBool {
        /// The state field to write.
        field: Ustr,
        /// The boolean value to assign.
        value: bool,
    },
    /// Set an integer field to a literal.
    SetInt {
        /// The state field to write.
        field: Ustr,
        /// The integer value to assign.
        value: i32,
    },
    /// Set a float field to a literal.
    SetFloat {
        /// The state field to write.
        field: Ustr,
        /// The float value to assign.
        value: FloatLiteral,
    },
    /// Switch an enum field to the named unit variant.
    SetEnum {
        /// The state field to write.
        field: Ustr,
        /// The enum type's name.
        enum_type: Ustr,
        /// The unit variant to switch to.
        enum_variant: Ustr,
    },
    /// Set an option field to `None`.
    SetNone {
        /// The state field to write.
        field: Ustr,
    },
    /// Copy one field's value into another.
    SetIdentifier {
        /// The state field to write.
        field: Ustr,
        /// The source field whose value is copied.
        field_source: Ustr,
    },
    /// Add a constant to an integer field.
    IncrementInt {
        /// The state field to write.
        field: Ustr,
        /// Amount to add (negative for subtraction).
        by: i32,
    },
    /// Add a constant to a float field.
    IncrementFloat {
        /// The state field to write.
        field: Ustr,
        /// Amount to add (negative for subtraction).
        by: FloatLiteral,
    },
}

/// A float addition that an effect asks for.
#[derive(Debug, Clone, Copy, PartialEq, Eq, Structural)]
pub struct FloatSum {
    /// The bits of the field's value.
    pub value: u32,
    /// The bits of the amount to add.
    pub by: u32,
}

/// How an assignment is written.
pub open spec fn assignment_text(field: Ustr, operator: Seq<char>, value: Seq<char>) -> Seq<char> {
    text_of(field) + operator + value
}

fn assignment(field: Ustr, operator: &str, value: &str) -> (text: String)
    ensures
        text@ == assignment_text(field, operator@, value@),
{
    join3(name_text(field), operator, value)
}

/// What an effect makes of its field's value.
pub enum Written {
    /// The field takes this value.
    To(Value),
    /// The field takes the value that an interned variant name stands for: it
    /// switches to the unit variant with these characters.
    Variant(Seq<char>),
    /// The field takes the sum.
    Sum(FloatSum),
    /// The field keeps its value: it is of another type.
    Nothing,
}

/// Whether a value can be assigned to a field that holds the other: they are of
/// one type.
pub open spec fn assignable(target: Value, source: Value) -> bool {
    match (target, source) {
        (Value::Bool(_), Value::Bool(_)) => true,
        (Value::Int(_), Value::Int(_)) => true,
        (Value::Float(_), Value::Float(_)) => true,
        (Value::Enum(a), Value::Enum(b)) => a.enum_type == b.enum_type && a.optional == b.optional,
        (Value::Other(a), Value::Other(b)) => a.kind == b.kind,
        _ => false,
    }
}

/// Whether a value can be assigned to a field that holds the other.
pub fn can_assign(target: Value, source: Value) -> (b: bool)
    ensures
        b == assignable(target, source),
{
    match (target, source) {
        (Value::Bool(_), Value::Bool(_)) => true,
        (Value::Int(_), Value::Int(_)) => true,
        (Value::Float(_), Value::Float(_)) => true,
        (Value::Enum(a), Value::Enum(b)) => a.enum_type == b.enum_type && a.optional == b.optional,
        (Value::Other(a), Value::Other(b)) => a.kind == b.kind,
        _ => false,
    }
}

/// The unit variants of an enum type.
#[derive(Debug)]
pub struct EnumType {
    /// The type's identity.
    pub enum_type: u64,
    /// The names of its unit variants.
    pub units: Vec<Ustr>,
}

/// Whether an enum type has a unit variant with this name.
pub open spec fn has_unit(types: Seq<EnumType>, enum_type: u64, variant: Seq<char>) -> bool {
    exists|i: int, k: int|
        0 <= i < types.len() && types[i].enum_type == enum_type && 0 <= k < types[i].units@.len()
            && text_of(#[trigger] types[i].units@[k]) == variant
}

/// Whether an enum type has a unit variant with this name.
fn knows_unit(types: &Vec<EnumType>, enum_type: u64, variant: Ustr) -> (b: bool)
    ensures
        b == has_unit(types@, enum_type, text_of(variant)),
{
    for i in 0..types.len()
        invariant
            forall|a: int, k: int|
                0 <= a < i && types@[a].enum_type == enum_type && 0 <= k < types@[a].units@.len()
                    ==> text_of(#[trigger] types@[a].units@[k]) != text_of(variant),
    {
        if types[i].enum_type == enum_type {
            let units = &types[i].units;
            for k in 0..units.len()
                invariant
                    i < types@.len(),
                    *units == types@[i as int].units,
                    types@[i as int].enum_type == enum_type,
                    forall|j: int|
                        0 <= j < k ==> text_of(#[trigger] units@[j]) != text_of(variant),
            {
                if same_name(units[k], variant) {
                    assert(text_of(types@[i as int].units@[k as int]) == text_of(variant));
                    return true;
                }
            }
        }
    }
    false
}

impl Effect {
    /// The field that the effect writes.
    pub open spec fn field_spec(&self) -> Ustr {
        match *self {
            Effect::SetBool { field, .. } => field,
            Effect::SetInt { field, .. } => field,
            Effect::SetFloat { field, .. } => field,
            Effect::SetEnum { field, .. } => field,
            Effect::SetNone { field } => field,
            Effect::SetIdentifier { field, .. } => field,
            Effect::IncrementInt { field, .. } => field,
            Effect::IncrementFloat { field, .. } => field,
        }
    }

    /// The field that the effect reads from, if any.
    pub open spec fn source_field_spec(&self) -> Option<Ustr> {
        match *self {
            Effect::SetIdentifier { field_source, .. } => Some(field_source),
            _ => None,
        }
    }

    /// How the effect is written in a domain file.
    pub open spec fn syntax_spec(&self) -> Seq<char> {
        match *self {
            Effect::SetBool { field, value } => assignment_text(field, " = "@, bool_text(value)),
            Effect::SetInt { field, value } => assignment_text(
                field,
                " = "@,
                signed_text(value as int),
            ),
            Effect::SetFloat { field, value } => assignment_text(
                field,
                " = "@,
                text_of(value.text),
            ),
            Effect::SetEnum { field, enum_type, enum_variant } => assignment_text(
                field,
                " = "@,
                text_of(enum_type) + "::"@ + text_of(enum_variant),
            ),
            Effect::SetNone { field } => assignment_text(field, " = "@, "None"@),
            Effect::SetIdentifier { field, field_source } => assignment_text(
                field,
                " = "@,
                text_of(field_source),
            ),
            Effect::IncrementInt { field, by } => assignment_text(
                field,
                " += "@,
                signed_text(by as int),
            ),
            Effect::IncrementFloat { field, by } => assignment_text(
                field,
                " += "@,
                text_of(by.text),
            ),
        }
    }

    /// What the effect makes of its field's value, where the field it reads from
    /// holds `source`.
    pub open spec fn written(&self, value: Value, source: Option<Value>) -> Written {
        match (*self, value) {
            (Effect::SetBool { value: v, .. }, Value::Bool(_)) => Written::To(Value::Bool(v)),
            (Effect::SetInt { value: v, .. }, Value::Int(_)) => Written::To(Value::Int(v)),
            (Effect::SetFloat { value: v, .. }, Value::Float(_)) => Written::To(
                Value::Float(v.bits),
            ),
            (Effect::SetEnum { enum_variant, .. }, Value::Enum(_)) => Written::Variant(
                text_of(enum_variant),
            ),
            (Effect::SetNone { .. }, Value::Enum(_)) => Written::Variant("None"@),
            (Effect::SetIdentifier { .. }, _) => match source {
                Some(Value::Other(o)) => if o.cloneable {
                    Written::To(Value::Other(o))
                } else {
                    Written::Nothing
                },
                Some(v) => Written::To(v),
                None => Written::Nothing,
            },
            (Effect::IncrementInt { by, .. }, Value::Int(n)) => Written::To(
                Value::Int((n + by) as i32),
            ),
            (Effect::IncrementFloat { by, .. }, Value::Float(f)) => Written::Sum(
                FloatSum { value: f, by: by.bits },
            ),
            _ => Written::Nothing,
        }
    }

    /// Whether the effect fits its field's value: an enum effect needs an enum
    /// field with the unit variant, a copy needs a source of the field's type,
    /// and an integer sum has to stay in range.
    pub open spec fn fits(
        &self,
        value: Value,
        source: Option<Value>,
        types: Seq<EnumType>,
    ) -> bool {
        match *self {
            Effect::SetEnum { enum_variant, .. } => value matches Value::Enum(e) && has_unit(
                types,
                e.enum_type,
                text_of(enum_variant),
            ),
            Effect::SetNone { .. } => value matches Value::Enum(e) && has_unit(
                types,
                e.enum_type,
                "None"@,
            ),
            Effect::SetIdentifier { .. } => source matches Some(v) ==> assignable(value, v),
            Effect::IncrementInt { by, .. } => value matches Value::Int(n) ==> i32::MIN <= n + by
                <= i32::MAX,
            _ => true,
        }
    }

    /// What does not fit about the effect, for a state and the registered types:
    /// the first field that the state lacks, or an enum type that is not
    /// registered.
    pub open spec fn misfit(&self, state: FieldState, registry: TypeRegistry) -> Option<Seq<char>> {
        if !state.is_struct {
            Some("Plan state must be a struct"@)
        } else if state.value_of(self.field_spec()) is None {
            Some("State has no field `"@ + text_of(self.field_spec()) + "`"@)
        } else if self.source_field_spec() matches Some(o) && state.value_of(o) is None {
            Some("State has no field `"@ + text_of(self.source_field_spec()->Some_0) + "`"@)
        } else {
            match *self {
                Effect::SetEnum { enum_type, .. } => if type_known(registry, text_of(enum_type)) {
                    None
                } else {
                    Some("Enum type `"@ + text_of(enum_type) + "` is not registered"@)
                },
                _ => None,
            }
        }
    }

    /// How the effect is written in a domain file.
    pub fn syntax(&self) -> (text: String)
        ensures
            text@ == self.syntax_spec(),
    {
        match *self {
            Effect::SetBool { field, value } => assignment(field, " = ", bool_name(value)),
            Effect::SetInt { field, value } => {
                let number = signed(value);
                assignment(field, " = ", number.as_str())
            },
            Effect::SetFloat { field, value } => assignment(field, " = ", name_text(value.text)),
            Effect::SetEnum { field, enum_type, enum_variant } => {
                let path = join3(name_text(enum_type), "::", name_text(enum_variant));
                assignment(field, " = ", path.as_str())
            },
            Effect::SetNone { field } => assignment(field, " = ", "None"),
            Effect::SetIdentifier { field, field_source } => assignment(
                field,
                " = ",
                name_text(field_source),
            ),
            Effect::IncrementInt { field, by } => {
                let number = signed(by);
                assignment(field, " += ", number.as_str())
            },
            Effect::IncrementFloat { field, by } => assignment(field, " += ", name_text(by.text)),
        }
    }

    /// The field that the effect writes.
    pub fn field(&self) -> (field: Ustr)
        ensures
            field == self.field_spec(),
    {
        match *self {
            Effect::SetBool { field, .. } => field,
            Effect::SetInt { field, .. } => field,
            Effect::SetFloat { field, .. } => field,
            Effect::SetEnum { field, .. } => field,
            Effect::SetNone { field } => field,
            Effect::SetIdentifier { field, .. } => field,
            Effect::IncrementInt { field, .. } => field,
            Effect::IncrementFloat { field, .. } => field,
        }
    }

    /// The field that the effect reads from, if any.
    pub fn source_field(&self) -> (field: Option<Ustr>)
        ensures
            field == self.source_field_spec(),
    {
        match *self {
            Effect::SetIdentifier { field_source, .. } => Some(field_source),
            _ => None,
        }
    }

    /// Checks that the state has the fields that the effect names, and (for an
    /// enum effect) that the enum type is registered.
    pub fn verify(&self, state: &FieldState, registry: &TypeRegistry) -> (checked: HtnResult<()>)
        ensures
            match self.misfit(*state, *registry) {
                None => checked is Ok,
                Some(why) => checked matches Err(HtnError::Effect { syntax, details }) && syntax@
                    == self.syntax_spec() && details@ == why,
            },
    {
        if !state.is_struct {
            return Err(
                HtnError::Effect {
                    syntax: self.syntax(),
                    details: "Plan state must be a struct".to_owned(),
                },
            );
        }
        if state.field(self.field()).is_none() {
            return Err(
                HtnError::Effect {
                    syntax: self.syntax(),
                    details: join3("State has no field `", name_text(self.field()), "`"),
                },
            );
        }
        if let Some(other) = self.source_field() {
            if state.field(other).is_none() {
                return Err(
                    HtnError::Effect {
                        syntax: self.syntax(),
                        details: join3("State has no field `", name_text(other), "`"),
                    },
                );
            }
        }
        match *self {
            Effect::SetEnum { enum_type, .. } => {
                if !is_registered(registry, name_text(enum_type)) {
                    return Err(
                        HtnError::Effect {
                            syntax: self.syntax(),
                            details: join3(
                                "Enum type `",
                                name_text(enum_type),
                                "` is not registered",
                            ),
                        },
                    );
                }
            },
            _ => {},
        }
        Ok(())
    }

    /// Whether the effect fits its field's value.
    pub fn applies_to(&self, value: Value, source: Option<Value>, types: &Vec<EnumType>) -> (b:
        bool)
        ensures
            b == self.fits(value, source, types@),
    {
        match *self {
            Effect::SetEnum { enum_variant, .. } => match value {
                Value::Enum(e) => knows_unit(types, e.enum_type, enum_variant),
                _ => false,
            },
            Effect::SetNone { .. } => match value {
                Value::Enum(e) => knows_unit(types, e.enum_type, intern("None")),
                _ => false,
            },
            Effect::SetIdentifier { .. } => match source {
                Some(v) => can_assign(value, v),
                None => true,
            },
            Effect::IncrementInt { by, .. } => match value {
                Value::Int(n) => {
                    let sum: i64 = n as i64 + by as i64;
                    i32::MIN as i64 <= sum && sum <= i32::MAX as i64
                },
                _ => true,
            },
            _ => true,
        }
    }

    /// Applies the effect to a value: the field's new value, or the sum that has
    /// to be made first.
    pub fn apply_to(&self, value: Value, source: Option<Value>) -> (r: (Value, Option<FloatSum>))
        requires
            self is IncrementInt && value is Int ==> i32::MIN <= value->Int_0 + self->IncrementInt_by
                <= i32::MAX,
        ensures
            match self.written(value, source) {
                Written::To(v) => r == (v, None::<FloatSum>),
                Written::Variant(name) => r.0 matches Value::Enum(e) && text_of(e.variant) == name
                    && e.data == 0 && e.enum_type == value->Enum_0.enum_type && e.optional
                    == value->Enum_0.optional && r.1 is None,
                Written::Sum(sum) => r == (value, Some(sum)),
                Written::Nothing => r == (value, None::<FloatSum>),
            },
    {
        match (*self, value) {
            (Effect::SetBool { value: v, .. }, Value::Bool(_)) => (Value::Bool(v), None),
            (Effect::SetInt { value: v, .. }, Value::Int(_)) => (Value::Int(v), None),
            (Effect::SetFloat { value: v, .. }, Value::Float(_)) => (Value::Float(v.bits), None),
            (Effect::SetEnum { enum_variant, .. }, Value::Enum(e)) => (
                Value::Enum(EnumValue { variant: enum_variant, data: 0, ..e }),
                None,
            ),
            (Effect::SetNone { .. }, Value::Enum(e)) => (
                Value::Enum(EnumValue { variant: intern("None"), data: 0, ..e }),
                None,
            ),
            (Effect::SetIdentifier { .. }, _) => match source {
                Some(Value::Other(o)) => if o.cloneable {
                    (Value::Other(o), None)
                } else {
                    (value, None)
                },
                Some(v) => (v, None),
                None => (value, None),
            },
            (Effect::IncrementInt { by, .. }, Value::Int(n)) => (Value::Int(n + by), None),
            (Effect::IncrementFloat { by, .. }, Value::Float(f)) => (
                value,
                Some(FloatSum { value: f, by: by.bits }),
            ),
            _ => (value, None),
        }
    }

    /// The value that the effect's source field has in a state.
    pub open spec fn source_in(&self, state: FieldState) -> Option<Value> {
        match self.source_field_spec() {
            Some(other) => state.value_of(other),
            None => None,
        }
    }

    /// Applies the effect to a state: its field takes the new value, and no other
    /// field changes; a field of another type than the effect's, or one that the
    /// state lacks, is left alone. A float increment changes nothing yet: it
    /// returns the sum to make, and the caller stores that with [`store_float`].
    pub fn apply(&self, state: &mut FieldState, types: &Vec<EnumType>) -> (sum: Option<FloatSum>)
        requires
            old(state).value_of(self.field_spec()) matches Some(v) ==> self.fits(
                v,
                self.source_in(*old(state)),
                types@,
            ),
        ensures
            applied(*self, *old(state), *final(state), sum),
    {
        let index: usize = match state.find(self.field()) {
            Some(i) => i,
            None => {
                return None;
            },
        };
        let source = match self.source_field() {
            Some(other) => state.field(other),
            None => None,
        };
        let (name, value) = state.fields[index];
        let (next, sum) = self.apply_to(value, source);
        state.fields.set(index, (name, next));
        assert(state.fields@ =~= old(state).fields@.update(index as int, (name, next)));
        sum
    }

    /// Applies the effect to a state.
    pub fn apply_dyn(&self, state: &mut FieldState, types: &Vec<EnumType>) -> (sum: Option<FloatSum>)
        requires
            old(state).value_of(self.field_spec()) matches Some(v) ==> self.fits(
                v,
                self.source_in(*old(state)),
                types@,
            ),
        ensures
            applied(*self, *old(state), *final(state), sum),
    {
        self.apply(state, types)
    }
}

/// Whether a field's value is what an effect makes of the old one; and the sum
/// that is asked for.
pub open spec fn wrote(
    effect: Effect,
    value: Value,
    source: Option<Value>,
    next: Value,
    sum: Option<FloatSum>,
) -> bool {
    match effect.written(value, source) {
        Written::To(v) => next == v && sum is None,
        Written::Variant(name) => (next matches Value::Enum(e) && text_of(e.variant) == name
            && e.data == 0 && e.enum_type == value->Enum_0.enum_type && e.optional
            == value->Enum_0.optional) && sum is None,
        Written::Sum(s) => next == value && sum == Some(s),
        Written::Nothing => next == value && sum is None,
    }
}

/// Whether an effect takes the one state to the other.
pub open spec fn applied(
    effect: Effect,
    before: FieldState,
    after: FieldState,
    sum: Option<FloatSum>,
) -> bool {
    match before.index_of(effect.field_spec()) {
        None => after == before && sum is None,
        Some(i) => {
            let (name, value) = before.fields@[i as int];
            &&& after.is_struct == before.is_struct
            &&& after.fields@.len() == before.fields@.len()
            &&& after.fields@[i as int].0 == name
            &&& wrote(
                effect,
                value,
                effect.source_in(before),
                after.fields@[i as int].1,
                sum,
            )
            &&& forall|k: int|
                0 <= k < before.fields@.len() && k != i ==> #[trigger] after.fields@[k]
                    == before.fields@[k]
        },
    }
}

/// Stores the sum that a float increment asked for.
pub fn store_float(state: &mut FieldState, field: Ustr, bits: u32)
    ensures
        match old(state).index_of(field) {
            None => *final(state) == *old(state),
            Some(i) => {
                &&& final(state).is_struct == old(state).is_struct
                &&& final(state).fields@ == (if old(state).fields@[i as int].1 is Float {
                    old(state).fields@.update(
                        i as int,
                        (old(state).fields@[i as int].0, Value::Float(bits)),
                    )
                } else {
                    old(state).fields@
                })
            },
        },
{
    match state.find(field) {
        Some(i) => {
            let (name, value) = state.fields[i];
            match value {
                Value::Float(_) => {
                    state.fields.set(i, (name, Value::Float(bits)));
                },
                _ => {},
            }
        },
        None => {},
    }
}

/// The condition that an effect which sets a literal makes true.
pub open spec fn established(effect: Effect) -> Option<HtnCondition> {
    match effect {
        Effect::SetBool { field, value } => Some(
            HtnCondition::EqualsBool { field, value, notted: false },
        ),
        Effect::SetInt { field, value } => Some(
            HtnCondition::EqualsInt { field, value, notted: false },
        ),
        Effect::SetFloat { field, value } => if float_rank(value.bits) is Some {
            Some(HtnCondition::EqualsFloat { field, value, notted: false })
        } else {
            None
        },
        Effect::SetEnum { field, enum_type, enum_variant } => Some(
            HtnCondition::EqualsEnum { field, enum_type, enum_variant, notted: false },
        ),
        _ => None,
    }
}

/// Whether a field's value is of the type that an effect writes.
pub open spec fn of_its_type(effect: Effect, value: Value) -> bool {
    match effect {
        Effect::SetBool { .. } => value is Bool,
        Effect::SetInt { .. } => value is Int,
        Effect::SetFloat { .. } => value is Float,
        Effect::SetEnum { .. } => value is Enum,
        _ => false,
    }
}

proof fn lemma_index_kept(a: FieldState, b: FieldState, name: Seq<char>, k: nat)
    requires
        a.fields@.len() == b.fields@.len(),
        forall|i: int| 0 <= i < a.fields@.len() ==> (#[trigger] b.fields@[i]).0 == a.fields@[i].0,
    ensures
        a.index_from(name, k) == b.index_from(name, k),
    decreases a.fields@.len() - k,
{
    if k < a.fields@.len() {
        assert(b.fields@[k as int].0 == a.fields@[k as int].0);
        lemma_index_kept(a, b, name, k + 1);
    }
}

/// An effect that sets a field to a literal makes the condition true that asks
/// for that literal, where the field is of the literal's type. (What is no number
/// equals nothing, so setting a float to it establishes nothing.)
pub proof fn setting_a_literal_establishes_it(
    effect: Effect,
    before: FieldState,
    after: FieldState,
    sum: Option<FloatSum>,
)
    requires
        established(effect) is Some,
        before.value_of(effect.field_spec()) matches Some(v) && of_its_type(effect, v),
        applied(effect, before, after, sum),
    ensures
        established(effect)->Some_0.holds(after),
{
    let name = text_of(effect.field_spec());
    let i = before.index_of(effect.field_spec())->Some_0 as int;
    assert forall|k: int| 0 <= k < before.fields@.len() implies (#[trigger] after.fields@[k]).0
        == before.fields@[k].0 by {
        if k != i {
            assert(after.fields@[k] == before.fields@[k]);
        }
    }
    lemma_index_kept(before, after, name, 0);
}

/// An effect leaves every field with another name alone, and keeps the names.
pub proof fn effects_leave_other_fields_alone(
    effect: Effect,
    before: FieldState,
    after: FieldState,
    sum: Option<FloatSum>,
    name: Ustr,
)
    requires
        applied(effect, before, after, sum),
        text_of(name) != text_of(effect.field_spec()),
    ensures
        after.value_of(name) == before.value_of(name),
        after.is_struct == before.is_struct,
        after.fields@.len() == before.fields@.len(),
{
    if let Some(i) = before.index_of(effect.field_spec()) {
        assert forall|k: int| 0 <= k < before.fields@.len() implies (#[trigger] after.fields@[k]).0
            == before.fields@[k].0 by {
            if k != i {
                assert(after.fields@[k] == before.fields@[k]);
            }
        }
        lemma_index_kept(before, after, text_of(name), 0);
        fields_are_found_by_name(before, text_of(name), 0);
        fields_are_found_by_name(before, text_of(effect.field_spec()), 0);
    }
}

/// What an effect does to a field of its type: a literal replaces the value, an
/// integer increment adds to it, a copy takes the source's value, and a float
/// increment asks for the sum of the value and the amount. A field of another
/// type than the literal or the amount is left alone.
pub proof fn effects_write_what_they_say(
    field: Ustr,
    field_source: Ustr,
    value: Value,
    source: Option<Value>,
    next: Value,
    sum: Option<FloatSum>,
    b: bool,
    n: i32,
    f: FloatLiteral,
)
    ensures
        wrote(Effect::SetBool { field, value: b }, value, source, next, sum) <==> sum is None
            && next == (if value is Bool {
            Value::Bool(b)
        } else {
            value
        }),
        wrote(Effect::SetInt { field, value: n }, value, source, next, sum) <==> sum is None && next
            == (if value is Int {
            Value::Int(n)
        } else {
            value
        }),
        wrote(Effect::SetFloat { field, value: f }, value, source, next, sum) <==> sum is None
            && next == (if value is Float {
            Value::Float(f.bits)
        } else {
            value
        }),
        value is Int && i32::MIN <= value->Int_0 + n <= i32::MAX ==> (wrote(
            Effect::IncrementInt { field, by: n },
            value,
            source,
            next,
            sum,
        ) <==> sum is None && (next matches Value::Int(r) && r == value->Int_0 + n)),
        !(value is Int) ==> (wrote(
            Effect::IncrementInt { field, by: n },
            value,
            source,
            next,
            sum,
        ) <==> sum is None && next == value),
        value matches Value::Float(x) ==> (wrote(
            Effect::IncrementFloat { field, by: f },
            value,
            source,
            next,
            sum,
        ) <==> next == value && sum == Some(FloatSum { value: x, by: f.bits })),
        source matches Some(v) && (v matches Value::Other(o) ==> o.cloneable) ==> (wrote(
            Effect::SetIdentifier { field, field_source },
            value,
            source,
            next,
            sum,
        ) <==> sum is None && next == source->Some_0),
{
}

/// Two increments in a row add up: they lead where one by their sum leads.
pub proof fn increments_add_up(
    field: Ustr,
    value: Value,
    middle: Value,
    end: Value,
    a: i32,
    b: i32,
    c: i32,
)
    requires
        value matches Value::Int(n) && i32::MIN <= n + a <= i32::MAX && i32::MIN <= n + a + b
            <= i32::MAX,
        c == a + b,
        wrote(Effect::IncrementInt { field, by: a }, value, None, middle, None),
        wrote(Effect::IncrementInt { field, by: b }, middle, None, end, None),
    ensures
        wrote(Effect::IncrementInt { field, by: c }, value, None, end, None),
{
}

/// Copying one field into another makes the condition true that asks whether the
/// two are equal, where the copied value equals itself and can be copied; and
/// setting an option to `None` makes the condition true that asks for that.
pub proof fn copies_and_nones_are_established(
    field: Ustr,
    field_source: Ustr,
    before: FieldState,
    after: FieldState,
    sum: Option<FloatSum>,
)
    requires
        before.value_of(field) is Some,
    ensures
        applied(Effect::SetIdentifier { field, field_source }, before, after, sum) && text_of(field)
            != text_of(field_source) && (before.value_of(field_source) matches Some(v)
            && same_value(v, v) && (v matches Value::Other(o) ==> o.cloneable)) ==> (
        HtnCondition::EqualsIdentifier { field, other_field: field_source, notted: false }).holds(
            after,
        ),
        applied(Effect::SetNone { field }, before, after, sum) && (before.value_of(field) matches
            Some(Value::Enum(e)) && e.optional) ==> (HtnCondition::EqualsNone {
            field,
            notted: false,
        }).holds(after),
{
    let copy = Effect::SetIdentifier { field, field_source };
    let i = before.index_of(field)->Some_0 as int;
    if applied(copy, before, after, sum) {
        assert forall|k: int| 0 <= k < before.fields@.len() implies (#[trigger] after.fields@[k]).0
            == before.fields@[k].0 by {
            if k != i {
                assert(after.fields@[k] == before.fields@[k]);
            }
        }
        lemma_index_kept(before, after, text_of(field), 0);
        if text_of(field) != text_of(field_source) {
            effects_leave_other_fields_alone(copy, before, after, sum, field_source);
        }
    }
    if applied(Effect::SetNone { field }, before, after, sum) {
        assert forall|k: int| 0 <= k < before.fields@.len() implies (#[trigger] after.fields@[k]).0
            == before.fields@[k].0 by {
            if k != i {
                assert(after.fields@[k] == before.fields@[k]);
            }
        }
        lemma_index_kept(before, after, text_of(field), 0);
    }
}

/// A value can be assigned to a field that holds one of the same type, so a field
/// takes its own value, and two fields take each other's or neither does.
pub proof fn assignment_goes_by_type(a: Value, b: Value)
    ensures
        assignable(a, a),
        assignable(a, b) == assignable(b, a),
        assignable(a, b) ==> (a is Bool) == (b is Bool) && (a is Int) == (b is Int) && (a is Float)
            == (b is Float) && (a is Enum) == (b is Enum),
        a is Int && b is Int ==> assignable(a, b),
        a is Bool && b is Bool ==> assignable(a, b),
        a is Float && b is Float ==> assignable(a, b),
{
}

/// An effect fits a state exactly where the state is a struct, has every field
/// that the effect names, and the enum type that it names is registered.
pub proof fn effects_fit_where_all_is_known(
    effect: Effect,
    state: FieldState,
    registry: TypeRegistry,
)
    ensures
        effect.misfit(state, registry) is None <==> {
            &&& state.is_struct
            &&& state.value_of(effect.field_spec()) is Some
            &&& effect.source_field_spec() matches Some(o) ==> state.value_of(o) is Some
            &&& effect matches Effect::SetEnum { enum_type, .. } ==> type_known(
                registry,
                text_of(enum_type),
            )
        },
{
}

} // verus!
