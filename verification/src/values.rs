//! The values of a plan state that a domain file speaks of: named fields that
//! hold booleans, integers, floats, enums, or anything else.
//!
//! A float is held by its IEEE 754 single-precision bits. Two floats compare by
//! sign and magnitude, which the bits give directly; a NaN compares with
//! nothing, and the two zeros are equal.

use crate::names::{same_name, text_of};
use bevy_reflect::std_traits::ReflectDefault;
use bevy_reflect::TypeRegistry;
use ustr::Ustr;
use vstd::prelude::*;

verus! {

/// A value of an enum type.
#[derive(Debug, Clone, Copy)]
pub struct EnumValue {
    /// The enum type's identity.
    pub enum_type: u64,
    /// Whether the type is an option: its variants are `None` and `Some`.
    pub optional: bool,
    /// The name of the variant.
    pub variant: Ustr,
    /// Stands for the data of the variant: equal data has equal marks, and a
    /// unit variant has mark 0.
    pub data: u64,
}

/// A value of a type that conditions and effects cannot look into.
#[derive(Debug, Clone, Copy, PartialEq, Eq, Structural)]
pub struct OtherValue {
    /// The type's identity.
    pub kind: u64,
    /// Stands for the value: equal values have equal marks.
    pub data: u64,
    /// Whether the value can be copied into another field.
    pub cloneable: bool,
}

/// The value of a field.
#[derive(Debug, Clone, Copy)]
pub enum Value {
    /// A boolean.
    Bool(bool),
    /// An integer.
    Int(i32),
    /// A float, by its bits.
    Float(u32),
    /// An enum value.
    Enum(EnumValue),
    /// Anything else.
    Other(OtherValue),
}

/// The bits of positive infinity: what lies above them, without the sign, is no
/// number.
pub const FLOAT_INFINITY: u32 = 0x7f80_0000;

/// The sign bit of a float.
pub const FLOAT_SIGN: u32 = 0x8000_0000;

/// Where a float lies in the order of floats; `None` where it is no number.
pub open spec fn float_rank(bits: u32) -> Option<int> {
    let magnitude = if bits >= FLOAT_SIGN {
        bits - FLOAT_SIGN
    } else {
        bits as int
    };
    if magnitude > FLOAT_INFINITY {
        None
    } else if bits >= FLOAT_SIGN {
        Some(-magnitude)
    } else {
        Some(magnitude)
    }
}

/// Where a float lies in the order of floats.
pub(crate) fn rank_of(bits: u32) -> (rank: Option<i64>)
    ensures
        match float_rank(bits) {
            Some(r) => rank matches Some(k) && k == r,
            None => rank is None,
        },
{
    let magnitude: u32 = if bits >= FLOAT_SIGN {
        bits - FLOAT_SIGN
    } else {
        bits
    };
    if magnitude > FLOAT_INFINITY {
        None
    } else if bits >= FLOAT_SIGN {
        Some(-(magnitude as i64))
    } else {
        Some(magnitude as i64)
    }
}

/// Whether two floats are equal: both are numbers, at the same place.
pub open spec fn same_float(a: u32, b: u32) -> bool {
    float_rank(a) is Some && float_rank(a) == float_rank(b)
}

/// Whether two floats are equal.
pub(crate) fn floats_equal(a: u32, b: u32) -> (same: bool)
    ensures
        same == same_float(a, b),
{
    match (rank_of(a), rank_of(b)) {
        (Some(x), Some(y)) => x == y,
        _ => false,
    }
}

/// Whether two values are equal.
pub open spec fn same_value(a: Value, b: Value) -> bool {
    match (a, b) {
        (Value::Bool(x), Value::Bool(y)) => x == y,
        (Value::Int(x), Value::Int(y)) => x == y,
        (Value::Float(x), Value::Float(y)) => same_float(x, y),
        (Value::Enum(x), Value::Enum(y)) => text_of(x.variant) == text_of(y.variant) && x.data
            == y.data,
        (Value::Other(x), Value::Other(y)) => x.kind == y.kind && x.data == y.data,
        _ => false,
    }
}

/// Whether two values are equal.
pub fn values_equal(a: Value, b: Value) -> (same: bool)
    ensures
        same == same_value(a, b),
{
    match (a, b) {
        (Value::Bool(x), Value::Bool(y)) => x == y,
        (Value::Int(x), Value::Int(y)) => x == y,
        (Value::Float(x), Value::Float(y)) => floats_equal(x, y),
        (Value::Enum(x), Value::Enum(y)) => same_name(x.variant, y.variant) && x.data == y.data,
        (Value::Other(x), Value::Other(y)) => x.kind == y.kind && x.data == y.data,
        _ => false,
    }
}

/// Whether the variants of an enum type are those of an option.
pub open spec fn is_option(names: Seq<Ustr>) -> bool {
    names.len() == 2 && text_of(names[0]) == "None"@ && text_of(names[1]) == "Some"@
}

/// Whether the variants of an enum type are those of an option.
pub fn represents_option(names: &Vec<Ustr>) -> (b: bool)
    ensures
        b == is_option(names@),
{
    names.len() == 2 && crate::text::same_text(crate::names::name_text(names[0]), "None")
        && crate::text::same_text(crate::names::name_text(names[1]), "Some")
}

/// A plan state by its named fields.
#[derive(Debug)]
pub struct FieldState {
    /// Whether the state is a struct; nothing else has fields.
    pub is_struct: bool,
    /// The fields.
    pub fields: Vec<(Ustr, Value)>,
}

impl FieldState {
    /// The first field from index `k` on with the given name.
    pub open spec fn index_from(&self, name: Seq<char>, k: nat) -> Option<nat>
        decreases self.fields@.len() - k,
    {
        if k >= self.fields@.len() {
            None
        } else if text_of(self.fields@[k as int].0) == name {
            Some(k)
        } else {
            self.index_from(name, k + 1)
        }
    }

    /// The index of the field with the given name.
    pub open spec fn index_of(&self, name: Ustr) -> Option<nat> {
        if self.is_struct {
            self.index_from(text_of(name), 0)
        } else {
            None
        }
    }

    /// The value of the field with the given name.
    pub open spec fn value_of(&self, name: Ustr) -> Option<Value> {
        match self.index_of(name) {
            Some(i) => Some(self.fields@[i as int].1),
            None => None,
        }
    }

    /// The index of the field with the given name.
    pub fn find(&self, name: Ustr) -> (index: Option<usize>)
        ensures
            match self.index_of(name) {
                Some(i) => index matches Some(k) && k == i && k < self.fields@.len(),
                None => index is None,
            },
    {
        if !self.is_struct {
            return None;
        }
        for k in 0..self.fields.len()
            invariant
                self.is_struct,
                self.index_of(name) == self.index_from(text_of(name), k as nat),
        {
            if same_name(self.fields[k].0, name) {
                return Some(k);
            }
        }
        None
    }

    /// The value of the field with the given name.
    pub fn field(&self, name: Ustr) -> (value: Option<Value>)
        ensures
            value == self.value_of(name),
    {
        match self.find(name) {
            Some(i) => Some(self.fields[i].1),
            None => None,
        }
    }
}

/// The reflected types of a program.
#[verifier::external_type_specification]
#[verifier::external_body]
pub struct ExTypeRegistry(bevy_reflect::TypeRegistry);

/// The registered types by full path; with each, whether it can be made by
/// default.
pub uninterp spec fn types_by_path(registry: TypeRegistry) -> Map<Seq<char>, bool>;

/// The registered types by short path, where it is not ambiguous; with each,
/// whether it can be made by default.
pub uninterp spec fn types_by_short_path(registry: TypeRegistry) -> Map<Seq<char>, bool>;

/// `TypeRegistry::get_with_type_path`: the registration of the type with the
/// given path, if there is one; of it, whether it carries `ReflectDefault`.
#[verifier::external_body]
pub(crate) fn type_with_path(registry: &TypeRegistry, path: &str) -> (found: Option<bool>)
    ensures
        found == (if types_by_path(*registry).dom().contains(path@) {
            Some(types_by_path(*registry)[path@])
        } else {
            None
        }),
{
    match registry.get_with_type_path(path) {
        Some(registration) => Some(registration.data::<ReflectDefault>().is_some()),
        None => None,
    }
}

/// `TypeRegistry::get_with_short_type_path`: the registration of the type with
/// the given short path, if there is exactly one; of it, whether it carries
/// `ReflectDefault`.
#[verifier::external_body]
pub(crate) fn type_with_short_path(registry: &TypeRegistry, path: &str) -> (found: Option<bool>)
    ensures
        found == (if types_by_short_path(*registry).dom().contains(path@) {
            Some(types_by_short_path(*registry)[path@])
        } else {
            None
        }),
{
    match registry.get_with_short_type_path(path) {
        Some(registration) => Some(registration.data::<ReflectDefault>().is_some()),
        None => None,
    }
}

/// Whether a type is registered under the given path, full or short.
pub open spec fn type_known(registry: TypeRegistry, path: Seq<char>) -> bool {
    types_by_path(registry).dom().contains(path) || types_by_short_path(registry).dom().contains(
        path,
    )
}

/// Whether a type is registered under the given path, full or short.
pub fn is_registered(registry: &TypeRegistry, path: &str) -> (b: bool)
    ensures
        b == type_known(*registry, path@),
{
    type_with_path(registry, path).is_some() || type_with_short_path(registry, path).is_some()
}

/// Equality of values is symmetric and transitive, and holds between a value and
/// itself unless it is a float that is no number.
pub proof fn value_equality_is_an_equivalence(a: Value, b: Value, c: Value)
    ensures
        same_value(a, a) <==> (a matches Value::Float(f) ==> float_rank(f) is Some),
        same_value(a, b) == same_value(b, a),
        same_value(a, b) && same_value(b, c) ==> same_value(a, c),
        same_value(a, b) ==> (a is Bool) == (b is Bool) && (a is Int) == (b is Int) && (a is Float)
            == (b is Float) && (a is Enum) == (b is Enum),
{
}

/// The floats are ordered as numbers are: of two positive ones the one with the
/// larger bits is larger, setting the sign mirrors a float at zero, the two zeros
/// are equal, and beyond infinity there is no number.
pub proof fn floats_are_ordered_by_sign_and_magnitude(a: u32, b: u32)
    requires
        a < FLOAT_SIGN,
        b < FLOAT_SIGN,
    ensures
        float_rank(a) is Some <==> a <= FLOAT_INFINITY,
        float_rank((a + FLOAT_SIGN) as u32) is Some <==> a <= FLOAT_INFINITY,
        float_rank(a) matches Some(r) ==> r >= 0 && float_rank((a + FLOAT_SIGN) as u32) == Some(-r),
        float_rank(a) is Some && float_rank(b) is Some ==> (a < b <==> float_rank(a)->Some_0
            < float_rank(b)->Some_0),
        same_float(0, FLOAT_SIGN),
{
}

/// A field is found by its name: the first that has it, and none only where the
/// state is no struct or no field has it.
pub proof fn fields_are_found_by_name(state: FieldState, name: Seq<char>, k: nat)
    ensures
        match state.index_from(name, k) {
            Some(i) => k <= i < state.fields@.len() && text_of(state.fields@[i as int].0) == name
                && forall|j: int| k <= j < i ==> text_of((#[trigger] state.fields@[j]).0) != name,
            None => forall|j: int|
                k <= j < state.fields@.len() ==> text_of((#[trigger] state.fields@[j]).0) != name,
        },
    decreases state.fields@.len() - k,
{
    if k < state.fields@.len() && text_of(state.fields@[k as int].0) != name {
        fields_are_found_by_name(state, name, k + 1);
    }
}

} // verus!
