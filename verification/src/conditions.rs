//! Conditions of a domain file: read-only predicates over the named fields of a
//! plan state.

use crate::error::{HtnError, HtnResult};
use crate::names::{name_text, same_name, text_of};
use crate::text::{bool_name, bool_text, join3, signed, signed_text};
use crate::values::{
    float_rank, floats_equal, is_registered, rank_of, same_float, same_value, type_known,
    values_equal, FieldState, Value,
};
use bevy_reflect::TypeRegistry;
use ustr::Ustr;
use vstd::prelude::*;
use vstd::string::StrSliceExecFns;

verus! {

/// A float literal: its bits, and how it is written.
#[derive(Debug, Clone, Copy)]
pub struct FloatLiteral {
    /// The bits.
    pub bits: u32,
    /// How it is written.
    pub text: Ustr,
}

/// A predicate over state fields, as it stands in a domain file.
#[derive(Debug, Clone, Copy)]
#[allow(inconsistent_fields)]
pub enum HtnCondition {
    /// Field equals a boolean literal.
    EqualsBool {
        /// The state field to read.
        field: Ustr,
        /// The boolean to compare against.
        value: bool,
        /// Whether the comparison is negated (`!=`).
        notted: bool,
    },
    /// Field equals an integer literal.
    EqualsInt {
        /// The state field to read.
        field: Ustr,
        /// The integer to compare against.
        value: i32,
        /// Whether the comparison is negated (`!=`).
        notted: bool,
    },
    /// Field equals a float literal.
    EqualsFloat {
        /// The state field to read.
        field: Ustr,
        /// The float to compare against.
        value: FloatLiteral,
        /// Whether the comparison is negated (`!=`).
        notted: bool,
    },
    /// Field is (or is not) `None`.
    EqualsNone {
        /// The state field to read.
        field: Ustr,
        /// Whether the comparison is negated (`!= None`).
        notted: bool,
    },
    /// Field equals an enum variant.
    EqualsEnum {
        /// The state field to read.
        field: Ustr,
        /// The enum type's name.
        enum_type: Ustr,
        /// The variant to compare against.
        enum_variant: Ustr,
        /// Whether the comparison is negated (`!=`).
        notted: bool,
    },
    /// Two fields hold equal values.
    EqualsIdentifier {
        /// The first state field to read.
        field: Ustr,
        /// The second state field to read.
        other_field: Ustr,
        /// Whether the comparison is negated (`!=`).
        notted: bool,
    },
    /// Integer field is greater than a literal.
    GreaterThanInt {
        /// The state field to read.
        field: Ustr,
        /// The integer threshold.
        threshold: i32,
        /// `true` for `>=`, `false` for `>`.
        orequals: bool,
    },
    /// Float field is greater than a literal.
    GreaterThanFloat {
        /// The state field to read.
        field: Ustr,
        /// The float threshold.
        threshold: FloatLiteral,
        /// `true` for `>=`, `false` for `>`.
        orequals: bool,
    },
    /// Integer field is greater than another field's value.
    GreaterThanIdentifier {
        /// The state field to read.
        field: Ustr,
        /// The other field to compare against.
        other_field: Ustr,
        /// `true` for `>=`, `false` for `>`.
        orequals: bool,
    },
    /// Integer field is less than a literal.
    LessThanInt {
        /// The state field to read.
        field: Ustr,
        /// The integer threshold.
        threshold: i32,
        /// `true` for `<=`, `false` for `<`.
        orequals: bool,
    },
    /// Float field is less than a literal.
    LessThanFloat {
        /// The state field to read.
        field: Ustr,
        /// The float threshold.
        threshold: FloatLiteral,
        /// `true` for `<=`, `false` for `<`.
        orequals: bool,
    },
    /// Integer field is less than another field's value.
    LessThanIdentifier {
        /// The state field to read.
        field: Ustr,
        /// The other field to compare against.
        other_field: Ustr,
        /// `true` for `<=`, `false` for `<`.
        orequals: bool,
    },
}

/// Whether two places lie as asked: the first above or below the second, or
/// level with it where that is asked for too.
pub open spec fn lies(a: int, b: int, orequals: bool, greater: bool) -> bool {
    ||| orequals && a == b
    ||| greater && a > b
    ||| !greater && a < b
}

/// How equality is written.
pub open spec fn equality_text(notted: bool) -> Seq<char> {
    if notted {
        "!="@
    } else {
        "=="@
    }
}

/// How an order is written.
pub open spec fn order_text(orequals: bool, greater: bool) -> Seq<char> {
    if greater {
        if orequals {
            ">="@
        } else {
            ">"@
        }
    } else if orequals {
        "<="@
    } else {
        "<"@
    }
}

fn equality(notted: bool) -> (text: &'static str)
    ensures
        text@ == equality_text(notted),
{
    if notted {
        "!="
    } else {
        "=="
    }
}

fn order(orequals: bool, greater: bool) -> (text: &'static str)
    ensures
        text@ == order_text(orequals, greater),
{
    if greater {
        if orequals {
            ">="
        } else {
            ">"
        }
    } else if orequals {
        "<="
    } else {
        "<"
    }
}

/// How a comparison of a field is written.
pub open spec fn comparison_text(field: Ustr, operator: Seq<char>, value: Seq<char>) -> Seq<char> {
    text_of(field) + " "@ + operator + " "@ + value
}

fn comparison(field: Ustr, operator: &str, value: &str) -> (text: String)
    ensures
        text@ == comparison_text(field, operator@, value@),
{
    let left = join3(name_text(field), " ", operator);
    join3(left.as_str(), " ", value)
}

/// An integer field against a threshold; a field of another type does not lie
/// anywhere.
fn int_lies(v: Value, threshold: i32, orequals: bool, greater: bool) -> (b: bool)
    ensures
        b == (v matches Value::Int(n) && lies(n as int, threshold as int, orequals, greater)),
{
    match v {
        Value::Int(n) => pair_lies(n as i64, threshold as i64, orequals, greater),
        _ => false,
    }
}

/// A float field against a threshold; what is no number does not lie anywhere.
fn float_lies(v: Value, threshold: u32, orequals: bool, greater: bool) -> (b: bool)
    ensures
        b == (v matches Value::Float(f) && float_lies_spec(f, threshold, orequals, greater)),
{
    match v {
        Value::Float(f) => match (rank_of(f), rank_of(threshold)) {
            (Some(a), Some(b)) => pair_lies(a, b, orequals, greater),
            _ => false,
        },
        _ => false,
    }
}

/// Whether a float lies as asked.
pub open spec fn float_lies_spec(a: u32, b: u32, orequals: bool, greater: bool) -> bool {
    &&& float_rank(a) matches Some(x)
    &&& float_rank(b) matches Some(y)
    &&& lies(x, y, orequals, greater)
}

fn pair_lies(a: i64, b: i64, orequals: bool, greater: bool) -> (r: bool)
    ensures
        r == lies(a as int, b as int, orequals, greater),
{
    if greater {
        if orequals {
            a >= b
        } else {
            a > b
        }
    } else if orequals {
        a <= b
    } else {
        a < b
    }
}

impl HtnCondition {
    /// The primary field that the condition reads.
    pub open spec fn field_spec(&self) -> Ustr {
        match *self {
            HtnCondition::EqualsBool { field, .. } => field,
            HtnCondition::EqualsInt { field, .. } => field,
            HtnCondition::EqualsFloat { field, .. } => field,
            HtnCondition::EqualsNone { field, .. } => field,
            HtnCondition::EqualsEnum { field, .. } => field,
            HtnCondition::EqualsIdentifier { field, .. } => field,
            HtnCondition::GreaterThanInt { field, .. } => field,
            HtnCondition::GreaterThanFloat { field, .. } => field,
            HtnCondition::GreaterThanIdentifier { field, .. } => field,
            HtnCondition::LessThanInt { field, .. } => field,
            HtnCondition::LessThanFloat { field, .. } => field,
            HtnCondition::LessThanIdentifier { field, .. } => field,
        }
    }

    /// The second field that the condition compares against, if any.
    pub open spec fn other_field_spec(&self) -> Option<Ustr> {
        match *self {
            HtnCondition::EqualsIdentifier { other_field, .. } => Some(other_field),
            HtnCondition::GreaterThanIdentifier { other_field, .. } => Some(other_field),
            HtnCondition::LessThanIdentifier { other_field, .. } => Some(other_field),
            _ => None,
        }
    }

    /// How the condition is written in a domain file.
    pub open spec fn syntax_spec(&self) -> Seq<char> {
        match *self {
            HtnCondition::EqualsBool { field, value, notted } => comparison_text(
                field,
                equality_text(notted),
                bool_text(value),
            ),
            HtnCondition::EqualsInt { field, value, notted } => comparison_text(
                field,
                equality_text(notted),
                signed_text(value as int),
            ),
            HtnCondition::EqualsFloat { field, value, notted } => comparison_text(
                field,
                equality_text(notted),
                text_of(value.text),
            ),
            HtnCondition::EqualsNone { field, notted } => comparison_text(
                field,
                equality_text(notted),
                "None"@,
            ),
            HtnCondition::EqualsEnum { field, enum_type, enum_variant, notted } => comparison_text(
                field,
                equality_text(notted),
                text_of(enum_type) + "::"@ + text_of(enum_variant),
            ),
            HtnCondition::EqualsIdentifier { field, other_field, notted } => comparison_text(
                field,
                equality_text(notted),
                text_of(other_field),
            ),
            HtnCondition::GreaterThanInt { field, threshold, orequals } => comparison_text(
                field,
                order_text(orequals, true),
                signed_text(threshold as int),
            ),
            HtnCondition::GreaterThanFloat { field, threshold, orequals } => comparison_text(
                field,
                order_text(orequals, true),
                text_of(threshold.text),
            ),
            HtnCondition::GreaterThanIdentifier { field, other_field, orequals } => comparison_text(
                field,
                order_text(orequals, true),
                text_of(other_field),
            ),
            HtnCondition::LessThanInt { field, threshold, orequals } => comparison_text(
                field,
                order_text(orequals, false),
                signed_text(threshold as int),
            ),
            HtnCondition::LessThanFloat { field, threshold, orequals } => comparison_text(
                field,
                order_text(orequals, false),
                text_of(threshold.text),
            ),
            HtnCondition::LessThanIdentifier { field, other_field, orequals } => comparison_text(
                field,
                order_text(orequals, false),
                text_of(other_field),
            ),
        }
    }

    /// Whether the condition holds of the value of its field, and of the value of
    /// its second field where it compares against one.
    pub open spec fn holds_of(&self, value: Value, other: Option<Value>) -> bool {
        match *self {
            HtnCondition::EqualsBool { value: want, notted, .. } => value matches Value::Bool(v)
                && (v == want) != notted,
            HtnCondition::EqualsInt { value: want, notted, .. } => value matches Value::Int(v) && (v
                == want) != notted,
            HtnCondition::EqualsFloat { value: want, notted, .. } => value matches Value::Float(v)
                && same_float(v, want.bits) != notted,
            HtnCondition::EqualsNone { notted, .. } => (value matches Value::Enum(e) && e.optional
                && text_of(e.variant) == "None"@) != notted,
            HtnCondition::EqualsEnum { enum_variant, notted, .. } => (value matches Value::Enum(e)
                && text_of(e.variant) == text_of(enum_variant)) != notted,
            HtnCondition::EqualsIdentifier { notted, .. } => other matches Some(o) && same_value(
                value,
                o,
            ) != notted,
            HtnCondition::GreaterThanInt { threshold, orequals, .. } => value matches Value::Int(n)
                && lies(n as int, threshold as int, orequals, true),
            HtnCondition::GreaterThanFloat { threshold, orequals, .. } => value matches Value::Float(
                f,
            ) && float_lies_spec(f, threshold.bits, orequals, true),
            HtnCondition::GreaterThanIdentifier { orequals, .. } => (value, other) matches (
                Value::Int(a),
                Some(Value::Int(b)),
            ) && lies(a as int, b as int, orequals, true),
            HtnCondition::LessThanInt { threshold, orequals, .. } => value matches Value::Int(n)
                && lies(n as int, threshold as int, orequals, false),
            HtnCondition::LessThanFloat { threshold, orequals, .. } => value matches Value::Float(f)
                && float_lies_spec(f, threshold.bits, orequals, false),
            HtnCondition::LessThanIdentifier { orequals, .. } => (value, other) matches (
                Value::Int(a),
                Some(Value::Int(b)),
            ) && lies(a as int, b as int, orequals, false),
        }
    }

    /// Whether the condition holds of a state: false where it has no such field.
    pub open spec fn holds(&self, state: FieldState) -> bool {
        match state.value_of(self.field_spec()) {
            Some(value) => self.holds_of(
                value,
                match self.other_field_spec() {
                    Some(other) => state.value_of(other),
                    None => None,
                },
            ),
            None => false,
        }
    }

    /// What does not fit about the condition, for a state and the registered
    /// types: the first field that the state lacks, or an enum type that is not
    /// registered.
    pub open spec fn misfit(&self, state: FieldState, registry: TypeRegistry) -> Option<Seq<char>> {
        if !state.is_struct {
            Some("Plan state must be a struct"@)
        } else if state.value_of(self.field_spec()) is None {
            Some("State has no field `"@ + text_of(self.field_spec()) + "`"@)
        } else if self.other_field_spec() matches Some(o) && state.value_of(o) is None {
            Some("State has no field `"@ + text_of(self.other_field_spec()->Some_0) + "`"@)
        } else {
            match *self {
                HtnCondition::EqualsEnum { enum_type, .. } => if type_known(
                    registry,
                    text_of(enum_type),
                ) {
                    None
                } else {
                    Some("Enum type `"@ + text_of(enum_type) + "` is not registered"@)
                },
                _ => None,
            }
        }
    }

    /// How the condition is written in a domain file.
    pub fn syntax(&self) -> (text: String)
        ensures
            text@ == self.syntax_spec(),
    {
        match *self {
            HtnCondition::EqualsBool { field, value, notted } => comparison(
                field,
                equality(notted),
                bool_name(value),
            ),
            HtnCondition::EqualsInt { field, value, notted } => {
                let number = signed(value);
                comparison(field, equality(notted), number.as_str())
            },
            HtnCondition::EqualsFloat { field, value, notted } => comparison(
                field,
                equality(notted),
                name_text(value.text),
            ),
            HtnCondition::EqualsNone { field, notted } => comparison(
                field,
                equality(notted),
                "None",
            ),
            HtnCondition::EqualsEnum { field, enum_type, enum_variant, notted } => {
                let path = join3(name_text(enum_type), "::", name_text(enum_variant));
                comparison(field, equality(notted), path.as_str())
            },
            HtnCondition::EqualsIdentifier { field, other_field, notted } => comparison(
                field,
                equality(notted),
                name_text(other_field),
            ),
            HtnCondition::GreaterThanInt { field, threshold, orequals } => {
                let number = signed(threshold);
                comparison(field, order(orequals, true), number.as_str())
            },
            HtnCondition::GreaterThanFloat { field, threshold, orequals } => comparison(
                field,
                order(orequals, true),
                name_text(threshold.text),
            ),
            HtnCondition::GreaterThanIdentifier { field, other_field, orequals } => comparison(
                field,
                order(orequals, true),
                name_text(other_field),
            ),
            HtnCondition::LessThanInt { field, threshold, orequals } => {
                let number = signed(threshold);
                comparison(field, order(orequals, false), number.as_str())
            },
            HtnCondition::LessThanFloat { field, threshold, orequals } => comparison(
                field,
                order(orequals, false),
                name_text(threshold.text),
            ),
            HtnCondition::LessThanIdentifier { field, other_field, orequals } => comparison(
                field,
                order(orequals, false),
                name_text(other_field),
            ),
        }
    }

    /// The primary field that the condition reads.
    pub fn field(&self) -> (field: Ustr)
        ensures
            field == self.field_spec(),
    {
        match *self {
            HtnCondition::EqualsBool { field, .. } => field,
            HtnCondition::EqualsInt { field, .. } => field,
            HtnCondition::EqualsFloat { field, .. } => field,
            HtnCondition::EqualsNone { field, .. } => field,
            HtnCondition::EqualsEnum { field, .. } => field,
            HtnCondition::EqualsIdentifier { field, .. } => field,
            HtnCondition::GreaterThanInt { field, .. } => field,
            HtnCondition::GreaterThanFloat { field, .. } => field,
            HtnCondition::GreaterThanIdentifier { field, .. } => field,
            HtnCondition::LessThanInt { field, .. } => field,
            HtnCondition::LessThanFloat { field, .. } => field,
            HtnCondition::LessThanIdentifier { field, .. } => field,
        }
    }

    /// The second field that the condition compares against, if any.
    pub fn other_field(&self) -> (field: Option<Ustr>)
        ensures
            field == self.other_field_spec(),
    {
        match *self {
            HtnCondition::EqualsIdentifier { other_field, .. } => Some(other_field),
            HtnCondition::GreaterThanIdentifier { other_field, .. } => Some(other_field),
            HtnCondition::LessThanIdentifier { other_field, .. } => Some(other_field),
            _ => None,
        }
    }

    /// Every field that the condition reads, the primary one first.
    pub fn read_fields(&self) -> (fields: Vec<Ustr>)
        ensures
            fields@ == (match self.other_field_spec() {
                Some(other) => seq![self.field_spec(), other],
                None => seq![self.field_spec()],
            }),
    {
        let mut fields: Vec<Ustr> = Vec::new();
        fields.push(self.field());
        if let Some(other) = self.other_field() {
            fields.push(other);
        }
        fields
    }

    /// Checks that the state has the fields that the condition reads, and (for an
    /// enum condition) that the enum type is registered.
    pub fn verify(&self, state: &FieldState, registry: &TypeRegistry) -> (checked: HtnResult<()>)
        ensures
            match self.misfit(*state, *registry) {
                None => checked is Ok,
                Some(why) => checked matches Err(HtnError::Condition { syntax, details })
                    && syntax@ == self.syntax_spec() && details@ == why,
            },
    {
        if !state.is_struct {
            return Err(
                HtnError::Condition {
                    syntax: self.syntax(),
                    details: "Plan state must be a struct".to_owned(),
                },
            );
        }
        if state.field(self.field()).is_none() {
            return Err(
                HtnError::Condition {
                    syntax: self.syntax(),
                    details: join3("State has no field `", name_text(self.field()), "`"),
                },
            );
        }
        if let Some(other) = self.other_field() {
            if state.field(other).is_none() {
                return Err(
                    HtnError::Condition {
                        syntax: self.syntax(),
                        details: join3("State has no field `", name_text(other), "`"),
                    },
                );
            }
        }
        match *self {
            HtnCondition::EqualsEnum { enum_type, .. } => {
                if !is_registered(registry, name_text(enum_type)) {
                    return Err(
                        HtnError::Condition {
                            syntax: self.syntax(),
                            details: join3(
                                "Enum type `",
                                name_text(enum_type),
                                "` is not registered",
                            ),
                        },
                    );
                }
            },
            _ => {},
        }
        Ok(())
    }

    /// Evaluates the condition against a state.
    pub fn evaluate(&self, state: &FieldState) -> (b: bool)
        ensures
            b == self.holds(*state),
    {
        match state.field(self.field()) {
            Some(value) => {
                let other = match self.other_field() {
                    Some(other) => state.field(other),
                    None => None,
                };
                self.predicate(value, other)
            },
            None => false,
        }
    }

    /// Evaluates the condition on the value of its field, and on the value of its
    /// second field where it compares against one.
    pub fn predicate(&self, value: Value, other: Option<Value>) -> (b: bool)
        ensures
            b == self.holds_of(value, other),
    {
        match *self {
            HtnCondition::EqualsBool { value: want, notted, .. } => match value {
                Value::Bool(v) => (v == want) != notted,
                _ => false,
            },
            HtnCondition::EqualsInt { value: want, notted, .. } => match value {
                Value::Int(v) => (v == want) != notted,
                _ => false,
            },
            HtnCondition::EqualsFloat { value: want, notted, .. } => match value {
                Value::Float(v) => floats_equal(v, want.bits) != notted,
                _ => false,
            },
            HtnCondition::EqualsNone { notted, .. } => {
                let is_none: bool = match value {
                    Value::Enum(e) => e.optional && crate::text::same_text(
                        name_text(e.variant),
                        "None",
                    ),
                    _ => false,
                };
                is_none != notted
            },
            HtnCondition::EqualsEnum { enum_variant, notted, .. } => {
                let matched: bool = match value {
                    Value::Enum(e) => same_name(e.variant, enum_variant),
                    _ => false,
                };
                matched != notted
            },
            HtnCondition::EqualsIdentifier { notted, .. } => match other {
                Some(o) => values_equal(value, o) != notted,
                None => false,
            },
            HtnCondition::GreaterThanInt { threshold, orequals, .. } => int_lies(
                value,
                threshold,
                orequals,
                true,
            ),
            HtnCondition::GreaterThanFloat { threshold, orequals, .. } => float_lies(
                value,
                threshold.bits,
                orequals,
                true,
            ),
            HtnCondition::GreaterThanIdentifier { orequals, .. } => match other {
                Some(Value::Int(b)) => int_lies(value, b, orequals, true),
                _ => false,
            },
            HtnCondition::LessThanInt { threshold, orequals, .. } => int_lies(
                value,
                threshold,
                orequals,
                false,
            ),
            HtnCondition::LessThanFloat { threshold, orequals, .. } => float_lies(
                value,
                threshold.bits,
                orequals,
                false,
            ),
            HtnCondition::LessThanIdentifier { orequals, .. } => match other {
                Some(Value::Int(b)) => int_lies(value, b, orequals, false),
                _ => false,
            },
        }
    }
}

/// The condition with its comparison turned round, where it is one of equality.
pub open spec fn negated(c: HtnCondition) -> Option<HtnCondition> {
    match c {
        HtnCondition::EqualsBool { field, value, notted } => Some(
            HtnCondition::EqualsBool { field, value, notted: !notted },
        ),
        HtnCondition::EqualsInt { field, value, notted } => Some(
            HtnCondition::EqualsInt { field, value, notted: !notted },
        ),
        HtnCondition::EqualsFloat { field, value, notted } => Some(
            HtnCondition::EqualsFloat { field, value, notted: !notted },
        ),
        HtnCondition::EqualsNone { field, notted } => Some(
            HtnCondition::EqualsNone { field, notted: !notted },
        ),
        HtnCondition::EqualsEnum { field, enum_type, enum_variant, notted } => Some(
            HtnCondition::EqualsEnum { field, enum_type, enum_variant, notted: !notted },
        ),
        HtnCondition::EqualsIdentifier { field, other_field, notted } => Some(
            HtnCondition::EqualsIdentifier { field, other_field, notted: !notted },
        ),
        _ => None,
    }
}

/// Whether a condition can be answered of a value: the value is of the type of
/// the literal that it is compared with, or there is a second value.
pub open spec fn answerable(c: HtnCondition, value: Value, other: Option<Value>) -> bool {
    match c {
        HtnCondition::EqualsBool { .. } => value is Bool,
        HtnCondition::EqualsInt { .. } => value is Int,
        HtnCondition::EqualsFloat { .. } => value is Float,
        HtnCondition::EqualsIdentifier { .. } => other is Some,
        _ => true,
    }
}

/// Of a condition of equality and its negation, exactly one holds of a value of
/// the type that is compared, and neither of another.
pub proof fn negation_turns_equality_round(c: HtnCondition, value: Value, other: Option<Value>)
    requires
        negated(c) is Some,
    ensures
        answerable(c, value, other) ==> c.holds_of(value, other) != negated(c)->Some_0.holds_of(
            value,
            other,
        ),
        !answerable(c, value, other) ==> !c.holds_of(value, other)
            && !negated(c)->Some_0.holds_of(value, other),
{
}

/// What equality asks for: the literal itself, of a boolean or an integer; a
/// float of the same place; the variant's name, of an enum; the `None` of an
/// option; and equal values, of two fields.
pub proof fn equality_asks_for_the_literal(
    field: Ustr,
    other_field: Ustr,
    enum_type: Ustr,
    value: Value,
    other: Option<Value>,
    b: bool,
    n: i32,
    f: FloatLiteral,
    variant: Ustr,
)
    ensures
        (HtnCondition::EqualsBool { field, value: b, notted: false }).holds_of(value, other)
            <==> value == Value::Bool(b),
        (HtnCondition::EqualsInt { field, value: n, notted: false }).holds_of(value, other)
            <==> value == Value::Int(n),
        (HtnCondition::EqualsFloat { field, value: f, notted: false }).holds_of(value, other) <==> (
        value matches Value::Float(x) && float_rank(x) is Some && float_rank(x) == float_rank(
            f.bits,
        )),
        (HtnCondition::EqualsEnum {
            field,
            enum_type,
            enum_variant: variant,
            notted: false,
        }).holds_of(value, other) <==> (value matches Value::Enum(e) && text_of(e.variant)
            == text_of(variant)),
        (HtnCondition::EqualsNone { field, notted: false }).holds_of(value, other) <==> (
        value matches Value::Enum(e) && e.optional && text_of(e.variant) == "None"@),
        (HtnCondition::EqualsIdentifier { field, other_field, notted: false }).holds_of(
            value,
            other,
        ) <==> (other matches Some(o) && same_value(value, o)),
{
}

/// The order conditions mean the order of the integers, and of the places of the
/// floats: greater is the contrary of less or equal, and less the contrary of
/// greater or equal. A value of another type lies nowhere.
pub proof fn order_conditions_order(
    field: Ustr,
    other_field: Ustr,
    n: i32,
    m: i32,
    x: u32,
    y: FloatLiteral,
    orequals: bool,
    other: Option<Value>,
)
    ensures
        (HtnCondition::GreaterThanInt { field, threshold: m, orequals }).holds_of(
            Value::Int(n),
            other,
        ) <==> n > m || (orequals && n == m),
        (HtnCondition::LessThanInt { field, threshold: m, orequals }).holds_of(Value::Int(n), other)
            <==> n < m || (orequals && n == m),
        (HtnCondition::GreaterThanIdentifier { field, other_field, orequals }).holds_of(
            Value::Int(n),
            Some(Value::Int(m)),
        ) <==> n > m || (orequals && n == m),
        (HtnCondition::LessThanIdentifier { field, other_field, orequals }).holds_of(
            Value::Int(n),
            Some(Value::Int(m)),
        ) <==> n < m || (orequals && n == m),
        float_rank(x) is Some && float_rank(y.bits) is Some ==> (
        HtnCondition::GreaterThanFloat { field, threshold: y, orequals }).holds_of(
            Value::Float(x),
            other,
        ) != (HtnCondition::LessThanFloat {
            field,
            threshold: y,
            orequals: !orequals,
        }).holds_of(Value::Float(x), other),
        float_rank(x) is Some && float_rank(y.bits) is Some && float_rank(x)->Some_0 > float_rank(
            y.bits,
        )->Some_0 ==> (HtnCondition::GreaterThanFloat { field, threshold: y, orequals }).holds_of(
            Value::Float(x),
            other,
        ),
        float_rank(x) is None || float_rank(y.bits) is None ==> !(
        HtnCondition::GreaterThanFloat { field, threshold: y, orequals }).holds_of(
            Value::Float(x),
            other,
        ) && !(HtnCondition::LessThanFloat { field, threshold: y, orequals }).holds_of(
            Value::Float(x),
            other,
        ),
        float_rank(x) is Some && float_rank(x) == float_rank(y.bits) ==> (
        HtnCondition::GreaterThanFloat { field, threshold: y, orequals }).holds_of(
            Value::Float(x),
            other,
        ) == orequals,
{
}

/// A condition fits a state exactly where the state is a struct, has every field
/// that the condition reads, and the enum type that it names is registered.
pub proof fn conditions_fit_where_all_is_known(
    c: HtnCondition,
    state: FieldState,
    registry: TypeRegistry,
)
    ensures
        c.misfit(state, registry) is None <==> {
            &&& state.is_struct
            &&& state.value_of(c.field_spec()) is Some
            &&& c.other_field_spec() matches Some(o) ==> state.value_of(o) is Some
            &&& c matches HtnCondition::EqualsEnum { enum_type, .. } ==> type_known(
                registry,
                text_of(enum_type),
            )
        },
        state.value_of(c.field_spec()) is None ==> !c.holds(state),
{
}

} // verus!
