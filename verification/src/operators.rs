//! Operators of a domain file: the leaf actions of primitive tasks.
//!
//! An operator names a registered type and the state fields that initialise a
//! value of it.

use crate::effects::assignable;
use crate::error::{HtnError, HtnResult};
use crate::names::{name_text, same_name, text_of};
use crate::values::{
    type_with_path, type_with_short_path, types_by_path, types_by_short_path, FieldState, Value,
};
use bevy_reflect::TypeRegistry;
use ustr::Ustr;
use vstd::prelude::*;
use vstd::string::StrSliceExecFns;

verus! {

/// An operator reference, as it stands in a domain file.
#[derive(Debug)]
pub struct Operator {
    /// The operator type's name.
    pub name: Ustr,
    /// State field names used to initialise the operator's data.
    pub params: Vec<Ustr>,
}

impl Operator {
    /// The operator's name.
    pub fn name(&self) -> (name: Ustr)
        ensures
            name == self.name,
    {
        self.name
    }

    /// The operator's parameter names.
    pub fn params(&self) -> (params: &Vec<Ustr>)
        ensures
            *params == self.params,
    {
        &self.params
    }
}

/// The result of executing a plan step.
#[derive(Debug, Clone, Copy, PartialEq, Eq, Structural)]
pub enum OperatorStatus {
    /// The operator completed and the plan advances.
    Success,
    /// The operator is still executing.
    Ongoing,
    /// The operator failed.
    Failure,
}

/// The registration that an operator's name finds, by short path first: whether
/// a value of the type can be made by default.
pub open spec fn operator_type(registry: TypeRegistry, name: Seq<char>) -> Option<bool> {
    if types_by_short_path(registry).dom().contains(name) {
        Some(types_by_short_path(registry)[name])
    } else if types_by_path(registry).dom().contains(name) {
        Some(types_by_path(registry)[name])
    } else {
        None
    }
}

fn find_operator(registry: &TypeRegistry, name: &str) -> (found: Option<bool>)
    ensures
        found == operator_type(*registry, name@),
{
    match type_with_short_path(registry, name) {
        Some(by_default) => Some(by_default),
        None => type_with_path(registry, name),
    }
}

/// Whether an error reports this operator with these details.
pub open spec fn operator_error(
    error: HtnError,
    name: Seq<char>,
    params: Seq<Ustr>,
    details: Seq<char>,
) -> bool {
    error matches HtnError::Operator { name: n, params: ps, details: d } && {
        &&& n@ == name
        &&& d@ == details
        &&& ps@.len() == params.len()
        &&& forall|i: int| 0 <= i < params.len() ==> (#[trigger] ps@[i])@ == text_of(params[i])
    }
}

fn failed(name: &str, params: &Vec<Ustr>, details: &str) -> (error: HtnError)
    ensures
        operator_error(error, name@, params@, details@),
{
    let mut texts: Vec<String> = Vec::new();
    for i in 0..params.len()
        invariant
            texts@.len() == i,
            forall|k: int| 0 <= k < i ==> (#[trigger] texts@[k])@ == text_of(params@[k]),
    {
        texts.push(name_text(params[i]).to_owned());
    }
    HtnError::Operator { name: name.to_owned(), params: texts, details: details.to_owned() }
}

/// Checks that a named operator can be executed: its type is registered, can be
/// made by default, and (`runnable`) carries what runs it.
pub fn verify_operator(
    registry: &TypeRegistry,
    name: &str,
    params: &Vec<Ustr>,
    runnable: bool,
) -> (checked: HtnResult<()>)
    ensures
        match operator_type(*registry, name@) {
            None => checked matches Err(e) && operator_error(
                e,
                name@,
                params@,
                "No type registry entry. Call `app.register_type::<T>()` (or the\n            registry equivalent) for this operator."@,
            ),
            Some(false) => checked matches Err(e) && operator_error(
                e,
                name@,
                params@,
                "Missing ReflectDefault. Add `#[reflect(Default)]` to the operator type."@,
            ),
            Some(true) => if runnable {
                checked is Ok
            } else {
                checked matches Err(e) && operator_error(
                    e,
                    name@,
                    params@,
                    "Missing ReflectHtnOperator. Implement `HtnOperator` and register it."@,
                )
            },
        },
{
    match find_operator(registry, name) {
        None => Err(
            failed(
                name,
                params,
                "No type registry entry. Call `app.register_type::<T>()` (or the\n            registry equivalent) for this operator.",
            ),
        ),
        Some(by_default) => {
            if !by_default {
                Err(
                    failed(
                        name,
                        params,
                        "Missing ReflectDefault. Add `#[reflect(Default)]` to the operator type.",
                    ),
                )
            } else if !runnable {
                Err(
                    failed(
                        name,
                        params,
                        "Missing ReflectHtnOperator. Implement `HtnOperator` and register it.",
                    ),
                )
            } else {
                Ok(())
            }
        },
    }
}

/// A value of an operator's type.
#[derive(Debug)]
pub enum OperatorValue {
    /// A struct with named fields.
    Struct(Vec<(Ustr, Value)>),
    /// A tuple struct.
    Tuple(Vec<Value>),
    /// Anything else: it has no fields.
    Plain,
}

/// The mathematical value of an operator.
pub enum OperatorView {
    /// A struct with named fields.
    Struct(Seq<(Ustr, Value)>),
    /// A tuple struct.
    Tuple(Seq<Value>),
    /// Anything else.
    Plain,
}

impl OperatorValue {
    /// What the operator stands for.
    pub open spec fn view(&self) -> OperatorView {
        match self {
            OperatorValue::Struct(fields) => OperatorView::Struct(fields@),
            OperatorValue::Tuple(fields) => OperatorView::Tuple(fields@),
            OperatorValue::Plain => OperatorView::Plain,
        }
    }
}

/// The first field from index `k` on with the given name.
pub open spec fn field_from(fields: Seq<(Ustr, Value)>, name: Seq<char>, k: nat) -> Option<nat>
    decreases fields.len() - k,
{
    if k >= fields.len() {
        None
    } else if text_of(fields[k as int].0) == name {
        Some(k)
    } else {
        field_from(fields, name, k + 1)
    }
}

/// An operator after the parameter `param` is copied from a state: a parameter
/// that the state or the operator has no field for is skipped; a tuple struct
/// takes every parameter in its first field.
pub open spec fn copied(op: OperatorView, param: Ustr, state: FieldState) -> OperatorView {
    match state.value_of(param) {
        None => op,
        Some(value) => match op {
            OperatorView::Struct(fields) => match field_from(fields, text_of(param), 0) {
                Some(i) => OperatorView::Struct(
                    fields.update(i as int, (fields[i as int].0, value)),
                ),
                None => op,
            },
            OperatorView::Tuple(fields) => if fields.len() > 0 {
                OperatorView::Tuple(fields.update(0, value))
            } else {
                op
            },
            OperatorView::Plain => op,
        },
    }
}

/// An operator after the first `k` parameters are copied from a state.
pub open spec fn initialised(
    op: OperatorView,
    params: Seq<Ustr>,
    state: FieldState,
    k: nat,
) -> OperatorView
    decreases k,
{
    if k == 0 {
        op
    } else {
        copied(initialised(op, params, state, (k - 1) as nat), params[k - 1], state)
    }
}

/// Whether a parameter's value in a state is of the type of the operator's field
/// that takes it.
pub open spec fn param_fits(op: OperatorView, param: Ustr, state: FieldState) -> bool {
    state.value_of(param) matches Some(value) ==> match op {
        OperatorView::Struct(fields) => field_from(fields, text_of(param), 0) matches Some(i)
            ==> assignable(fields[i as int].1, value),
        OperatorView::Tuple(fields) => fields.len() > 0 ==> assignable(fields[0], value),
        OperatorView::Plain => true,
    }
}

/// Constructs an operator of a registered type from its default value: each
/// parameter with a field in the state and in the operator is copied.
pub fn construct_operator(
    operator: &Operator,
    state: &FieldState,
    registry: &TypeRegistry,
    default: OperatorValue,
) -> (built: HtnResult<OperatorValue>)
    requires
        forall|i: int|
            0 <= i < operator.params@.len() ==> param_fits(
                default.view(),
                #[trigger] operator.params@[i],
                *state,
            ),
    ensures
        match operator_type(*registry, text_of(operator.name)) {
            None => built matches Err(e) && operator_error(
                e,
                text_of(operator.name),
                operator.params@,
                "No type registry entry for operator"@,
            ),
            Some(false) => built matches Err(e) && operator_error(
                e,
                text_of(operator.name),
                operator.params@,
                "Missing ReflectDefault"@,
            ),
            Some(true) => built matches Ok(op) && op.view() == initialised(
                default.view(),
                operator.params@,
                *state,
                operator.params@.len(),
            ),
        },
{
    let name = name_text(operator.name());
    match find_operator(registry, name) {
        None => {
            return Err(failed(name, operator.params(), "No type registry entry for operator"));
        },
        Some(by_default) => {
            if !by_default {
                return Err(failed(name, operator.params(), "Missing ReflectDefault"));
            }
        },
    }
    let ghost start = default.view();
    let mut op = default;
    for k in 0..operator.params.len()
        invariant
            op.view() == initialised(start, operator.params@, *state, k as nat),
    {
        copy_param(&mut op, operator.params[k], state);
    }
    Ok(op)
}

fn find_field(fields: &Vec<(Ustr, Value)>, name: Ustr) -> (index: Option<usize>)
    ensures
        match field_from(fields@, text_of(name), 0) {
            Some(i) => index matches Some(k) && k == i && k < fields@.len(),
            None => index is None,
        },
{
    for k in 0..fields.len()
        invariant
            field_from(fields@, text_of(name), 0) == field_from(fields@, text_of(name), k as nat),
    {
        if same_name(fields[k].0, name) {
            return Some(k);
        }
    }
    None
}

fn copy_param(op: &mut OperatorValue, param: Ustr, state: &FieldState)
    ensures
        final(op).view() == copied(old(op).view(), param, *state),
{
    let value = match state.field(param) {
        Some(v) => v,
        None => {
            return;
        },
    };
    match op {
        OperatorValue::Struct(fields) => {
            if let Some(k) = find_field(fields, param) {
                let field = fields[k].0;
                fields.set(k, (field, value));
            }
        },
        OperatorValue::Tuple(fields) => {
            if fields.len() > 0 {
                fields.set(0, value);
            }
        },
        OperatorValue::Plain => {},
    }
}

/// A field of an operator is found by its name: the first that has it.
pub proof fn operator_fields_are_found_by_name(
    fields: Seq<(Ustr, Value)>,
    name: Seq<char>,
    k: nat,
)
    ensures
        match field_from(fields, name, k) {
            Some(i) => k <= i < fields.len() && text_of(fields[i as int].0) == name && forall|j: int|
                k <= j < i ==> text_of((#[trigger] fields[j]).0) != name,
            None => forall|j: int|
                k <= j < fields.len() ==> text_of((#[trigger] fields[j]).0) != name,
        },
    decreases fields.len() - k,
{
    if k < fields.len() && text_of(fields[k as int].0) != name {
        operator_fields_are_found_by_name(fields, name, k + 1);
    }
}

/// A struct operator takes its parameters from the state: once they are copied,
/// the field that a parameter names holds the value that the state has for it,
/// and a field that no parameter names holds its default. The names stay.
pub proof fn operators_take_their_parameters(
    fields: Seq<(Ustr, Value)>,
    params: Seq<Ustr>,
    state: FieldState,
    k: nat,
)
    requires
        k <= params.len(),
    ensures
        initialised(OperatorView::Struct(fields), params, state, k) matches OperatorView::Struct(now)
            && {
            &&& now.len() == fields.len()
            &&& forall|i: int| 0 <= i < fields.len() ==> (#[trigger] now[i]).0 == fields[i].0
            &&& forall|i: int|
                0 <= i < fields.len() && (forall|j: int|
                    0 <= j < k ==> text_of(#[trigger] params[j]) != text_of(fields[i].0))
                    ==> #[trigger] now[i] == fields[i]
            &&& forall|i: int, j: int|
                0 <= i < fields.len() && 0 <= j < k && text_of(#[trigger] params[j]) == text_of(
                    fields[i].0,
                ) && state.value_of(params[j]) is Some && (forall|h: int|
                    0 <= h < i ==> text_of((#[trigger] fields[h]).0) != text_of(fields[i].0))
                    ==> (#[trigger] now[i]).1 == state.value_of(params[j])->Some_0
        },
    decreases k,
{
    if k > 0 {
        operators_take_their_parameters(fields, params, state, (k - 1) as nat);
        let before = initialised(
            OperatorView::Struct(fields),
            params,
            state,
            (k - 1) as nat,
        )->Struct_0;
        let now = initialised(OperatorView::Struct(fields), params, state, k)->Struct_0;
        let name = text_of(params[k - 1]);
        operator_fields_are_found_by_name(before, name, 0);
        assert forall|i: int|
            0 <= i < fields.len() && (forall|j: int|
                0 <= j < k ==> text_of(#[trigger] params[j]) != text_of(fields[i].0)) implies #[trigger] now[i]
            == fields[i] by {
            assert(text_of(params[k - 1]) != text_of(fields[i].0));
            assert(before[i].0 == fields[i].0);
            assert(forall|j: int|
                0 <= j < k - 1 ==> text_of(#[trigger] params[j]) != text_of(fields[i].0));
        }
        assert forall|i: int, j: int|
            0 <= i < fields.len() && 0 <= j < k && text_of(#[trigger] params[j]) == text_of(
                fields[i].0,
            ) && state.value_of(params[j]) is Some && (forall|h: int|
                0 <= h < i ==> text_of((#[trigger] fields[h]).0) != text_of(
                    fields[i].0,
                )) implies (#[trigger] now[i]).1 == state.value_of(params[j])->Some_0 by {
            assert(before[i].0 == fields[i].0);
            lemma_same_name(state, params[j], params[k - 1]);
            if text_of(params[k - 1]) == text_of(fields[i].0) {
                let at = field_from(before, name, 0)->Some_0 as int;
                if at < i {
                    assert(before[at].0 == fields[at].0);
                }
            }
        }
    }
}

proof fn lemma_same_name(state: FieldState, a: Ustr, b: Ustr)
    ensures
        text_of(a) == text_of(b) ==> state.value_of(a) == state.value_of(b),
{
}

/// A tuple operator keeps the last of the parameters that the state has a field
/// for, in its first field; the other fields hold their defaults.
pub proof fn tuple_operators_take_the_last_parameter(
    fields: Seq<Value>,
    params: Seq<Ustr>,
    state: FieldState,
    k: nat,
)
    requires
        0 < k <= params.len(),
        fields.len() > 0,
    ensures
        initialised(OperatorView::Tuple(fields), params, state, k) matches OperatorView::Tuple(now)
            && now.len() == fields.len() && (forall|i: int|
            0 < i < fields.len() ==> #[trigger] now[i] == fields[i]) && (state.value_of(
            params[k - 1],
        ) matches Some(v) ==> now[0] == v),
    decreases k,
{
    if k > 1 {
        tuple_operators_take_the_last_parameter(fields, params, state, (k - 1) as nat);
    } else {
        assert(initialised(OperatorView::Tuple(fields), params, state, 0)
            == OperatorView::Tuple(fields));
    }
}

} // verus!
