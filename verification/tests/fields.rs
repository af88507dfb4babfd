use bevy_bhtn::asset_loader::{HtnAssetError, HtnAssetLoader, HtnAssetSettings};
use bevy_bhtn::conditions::{FloatLiteral, HtnCondition};
use bevy_bhtn::effects::{store_float, Effect, EnumType, FloatSum};
use bevy_bhtn::error::HtnError;
use bevy_bhtn::field_model::FieldEffect;
use bevy_bhtn::names::name;
use bevy_bhtn::operators::{
    construct_operator, verify_operator, Operator, OperatorStatus, OperatorValue,
};
use bevy_bhtn::values::{
    is_registered, represents_option, values_equal, EnumValue, FieldState, OtherValue, Value,
};
use bevy_reflect::TypeRegistry;

fn float(x: f32) -> FloatLiteral {
    FloatLiteral { bits: x.to_bits(), text: name(&format!("{x}")) }
}

fn mood(variant: &str) -> Value {
    Value::Enum(EnumValue { enum_type: 7, optional: false, variant: name(variant), data: 0 })
}

fn option(variant: &str, data: u64) -> Value {
    Value::Enum(EnumValue { enum_type: 8, optional: true, variant: name(variant), data })
}

fn state() -> FieldState {
    FieldState {
        is_struct: true,
        fields: vec![
            (name("alive"), Value::Bool(true)),
            (name("ammo"), Value::Int(3)),
            (name("reserve"), Value::Int(10)),
            (name("speed"), Value::Float(1.5f32.to_bits())),
            (name("mood"), mood("Angry")),
            (name("target"), option("Some", 4)),
            (
                name("path"),
                Value::Other(OtherValue { kind: 1, data: 5, cloneable: true }),
            ),
            (
                name("lock"),
                Value::Other(OtherValue { kind: 1, data: 6, cloneable: false }),
            ),
        ],
    }
}

fn types() -> Vec<EnumType> {
    vec![
        EnumType { enum_type: 7, units: vec![name("Angry"), name("Calm")] },
        EnumType { enum_type: 8, units: vec![name("None")] },
    ]
}

#[test]
fn boolean_and_integer_conditions() {
    let s = state();
    let alive = |value, notted| HtnCondition::EqualsBool { field: name("alive"), value, notted };
    assert!(alive(true, false).evaluate(&s));
    assert!(!alive(false, false).evaluate(&s));
    assert!(alive(false, true).evaluate(&s));
    let ammo = |value, notted| HtnCondition::EqualsInt { field: name("ammo"), value, notted };
    assert!(ammo(3, false).evaluate(&s));
    assert!(ammo(4, true).evaluate(&s));
    // A field of another type satisfies neither the condition nor its negation.
    let wrong = HtnCondition::EqualsInt { field: name("alive"), value: 1, notted: true };
    assert!(!wrong.evaluate(&s));
    let missing = HtnCondition::EqualsInt { field: name("gold"), value: 1, notted: true };
    assert!(!missing.evaluate(&s));
    let greater = |threshold, orequals| HtnCondition::GreaterThanInt {
        field: name("ammo"),
        threshold,
        orequals,
    };
    assert!(greater(2, false).evaluate(&s));
    assert!(!greater(3, false).evaluate(&s));
    assert!(greater(3, true).evaluate(&s));
    let less = |threshold, orequals| HtnCondition::LessThanInt {
        field: name("ammo"),
        threshold,
        orequals,
    };
    assert!(less(4, false).evaluate(&s));
    assert!(!less(3, false).evaluate(&s));
    assert!(less(3, true).evaluate(&s));
}

#[test]
fn float_conditions_agree_with_floats() {
    let samples = [
        0.0f32,
        -0.0,
        1.0,
        -1.0,
        1.5,
        -1.5,
        f32::MIN_POSITIVE,
        f32::MAX,
        f32::MIN,
        f32::INFINITY,
        f32::NEG_INFINITY,
        f32::NAN,
        1.0e-45,
        -3.25e7,
    ];
    for a in samples {
        let s = FieldState {
            is_struct: true,
            fields: vec![(name("x"), Value::Float(a.to_bits()))],
        };
        for b in samples {
            let field = name("x");
            let value = float(b);
            let equals = HtnCondition::EqualsFloat { field, value, notted: false };
            let differs = HtnCondition::EqualsFloat { field, value, notted: true };
            assert_eq!(equals.evaluate(&s), a == b, "{a} == {b}");
            assert_eq!(differs.evaluate(&s), a != b, "{a} != {b}");
            for orequals in [false, true] {
                let above = HtnCondition::GreaterThanFloat { field, threshold: value, orequals };
                let below = HtnCondition::LessThanFloat { field, threshold: value, orequals };
                let (gt, lt) = if orequals { (a >= b, a <= b) } else { (a > b, a < b) };
                assert_eq!(above.evaluate(&s), gt, "{a} > {b}");
                assert_eq!(below.evaluate(&s), lt, "{a} < {b}");
            }
        }
    }
}

#[test]
fn enum_and_field_conditions() {
    let s = state();
    let angry = HtnCondition::EqualsEnum {
        field: name("mood"),
        enum_type: name("Mood"),
        enum_variant: name("Angry"),
        notted: false,
    };
    assert!(angry.evaluate(&s));
    let none = |field: &str, notted| HtnCondition::EqualsNone { field: name(field), notted };
    assert!(!none("target", false).evaluate(&s));
    assert!(none("target", true).evaluate(&s));
    // What is no option is not none.
    assert!(none("mood", true).evaluate(&s));
    let same = |a: &str, b: &str, notted| HtnCondition::EqualsIdentifier {
        field: name(a),
        other_field: name(b),
        notted,
    };
    assert!(same("ammo", "ammo", false).evaluate(&s));
    assert!(same("ammo", "reserve", true).evaluate(&s));
    assert!(!same("ammo", "gold", true).evaluate(&s));
    let more = HtnCondition::GreaterThanIdentifier {
        field: name("reserve"),
        other_field: name("ammo"),
        orequals: false,
    };
    assert!(more.evaluate(&s));
    let fewer = HtnCondition::LessThanIdentifier {
        field: name("reserve"),
        other_field: name("ammo"),
        orequals: true,
    };
    assert!(!fewer.evaluate(&s));
    assert_eq!(fewer.read_fields(), vec![name("reserve"), name("ammo")]);
    assert_eq!(angry.read_fields(), vec![name("mood")]);
    assert!(!angry.evaluate(&FieldState { is_struct: false, fields: vec![] }));
}

#[test]
fn conditions_are_written_as_in_a_domain_file() {
    let field = name("ammo");
    let cases = [
        (HtnCondition::EqualsBool { field, value: true, notted: true }, "ammo != true"),
        (HtnCondition::EqualsInt { field, value: -12, notted: false }, "ammo == -12"),
        (
            HtnCondition::EqualsFloat { field, value: float(0.5), notted: false },
            "ammo == 0.5",
        ),
        (HtnCondition::EqualsNone { field, notted: false }, "ammo == None"),
        (
            HtnCondition::EqualsEnum {
                field,
                enum_type: name("Mood"),
                enum_variant: name("Calm"),
                notted: true,
            },
            "ammo != Mood::Calm",
        ),
        (
            HtnCondition::EqualsIdentifier { field, other_field: name("reserve"), notted: false },
            "ammo == reserve",
        ),
        (HtnCondition::GreaterThanInt { field, threshold: 3, orequals: false }, "ammo > 3"),
        (HtnCondition::GreaterThanInt { field, threshold: 3, orequals: true }, "ammo >= 3"),
        (
            HtnCondition::LessThanFloat { field, threshold: float(2.25), orequals: true },
            "ammo <= 2.25",
        ),
        (
            HtnCondition::LessThanIdentifier {
                field,
                other_field: name("reserve"),
                orequals: false,
            },
            "ammo < reserve",
        ),
    ];
    for (condition, text) in cases {
        assert_eq!(condition.syntax(), text);
    }
}

#[test]
fn conditions_are_checked_against_the_state() {
    let registry = TypeRegistry::new();
    let s = state();
    let ammo = HtnCondition::EqualsInt { field: name("ammo"), value: 1, notted: false };
    assert!(ammo.verify(&s, &registry).is_ok());
    let gold = HtnCondition::EqualsInt { field: name("gold"), value: 1, notted: false };
    assert_eq!(
        gold.verify(&s, &registry).unwrap_err(),
        HtnError::Condition {
            syntax: "gold == 1".to_string(),
            details: "State has no field `gold`".to_string(),
        }
    );
    let other = HtnCondition::LessThanIdentifier {
        field: name("ammo"),
        other_field: name("gold"),
        orequals: false,
    };
    assert!(other.verify(&s, &registry).is_err());
    let unit = FieldState { is_struct: false, fields: vec![] };
    assert_eq!(
        ammo.verify(&unit, &registry).unwrap_err(),
        HtnError::Condition {
            syntax: "ammo == 1".to_string(),
            details: "Plan state must be a struct".to_string(),
        }
    );
    let of = |ty: &str| HtnCondition::EqualsEnum {
        field: name("mood"),
        enum_type: name(ty),
        enum_variant: name("Calm"),
        notted: false,
    };
    assert_eq!(
        of("Mood").verify(&s, &registry).unwrap_err(),
        HtnError::Condition {
            syntax: "mood == Mood::Calm".to_string(),
            details: "Enum type `Mood` is not registered".to_string(),
        }
    );
    // By full path, or by short path.
    assert!(of("alloc::string::String").verify(&s, &registry).is_ok());
    assert!(of("String").verify(&s, &registry).is_ok());
    assert!(is_registered(&registry, "bool"));
    assert!(!is_registered(&registry, "string::String"));
}

#[test]
fn effects_write_their_field_alone() {
    let cases = [
        (Effect::SetBool { field: name("alive"), value: false }, "alive", Value::Bool(false)),
        (Effect::SetInt { field: name("ammo"), value: 30 }, "ammo", Value::Int(30)),
        (Effect::IncrementInt { field: name("ammo"), by: -2 }, "ammo", Value::Int(1)),
        (
            Effect::SetFloat { field: name("speed"), value: float(2.0) },
            "speed",
            Value::Float(2.0f32.to_bits()),
        ),
        (
            Effect::SetEnum {
                field: name("mood"),
                enum_type: name("Mood"),
                enum_variant: name("Calm"),
            },
            "mood",
            mood("Calm"),
        ),
        (Effect::SetNone { field: name("target") }, "target", option("None", 0)),
        (
            Effect::SetIdentifier { field: name("ammo"), field_source: name("reserve") },
            "ammo",
            Value::Int(10),
        ),
        // A value of another type, an unknown field, an unknown source: nothing.
        (Effect::SetInt { field: name("alive"), value: 1 }, "alive", Value::Bool(true)),
        (
            Effect::SetIdentifier { field: name("ammo"), field_source: name("gold") },
            "ammo",
            Value::Int(3),
        ),
        // What cannot be copied is not.
        (
            Effect::SetIdentifier { field: name("path"), field_source: name("lock") },
            "path",
            Value::Other(OtherValue { kind: 1, data: 5, cloneable: true }),
        ),
    ];
    for (effect, field, expected) in cases {
        let before = state();
        let mut after = state();
        assert_eq!(effect.apply(&mut after, &types()), None);
        for (old, new) in before.fields.iter().zip(after.fields.iter()) {
            assert_eq!(old.0, new.0);
            let want = if old.0 == name(field) { expected } else { old.1 };
            assert!(values_equal(new.1, want), "{effect:?}");
        }
        assert!(effect.apply_dyn(&mut after, &types()).is_none());
    }
    let mut s = state();
    let gold = Effect::SetInt { field: name("gold"), value: 1 };
    assert_eq!(gold.apply(&mut s, &types()), None);
    assert_eq!(s.fields.len(), state().fields.len());
}

#[test]
fn float_increments_ask_for_a_sum() {
    let mut s = state();
    let faster = Effect::IncrementFloat { field: name("speed"), by: float(0.25) };
    let sum = faster.apply(&mut s, &types()).expect("a sum to make");
    assert_eq!(sum, FloatSum { value: 1.5f32.to_bits(), by: 0.25f32.to_bits() });
    let total = f32::from_bits(sum.value) + f32::from_bits(sum.by);
    store_float(&mut s, name("speed"), total.to_bits());
    assert!(values_equal(
        s.field(name("speed")).unwrap(),
        Value::Float(1.75f32.to_bits())
    ));
    store_float(&mut s, name("ammo"), 1);
    assert!(values_equal(s.field(name("ammo")).unwrap(), Value::Int(3)));
    assert!(FieldEffect::new(faster).is_none());
}

#[test]
fn setting_a_literal_makes_its_condition_hold() {
    let mut s = state();
    Effect::SetInt { field: name("ammo"), value: 8 }.apply(&mut s, &types());
    assert!(HtnCondition::EqualsInt { field: name("ammo"), value: 8, notted: false }.evaluate(&s));
    Effect::SetEnum { field: name("mood"), enum_type: name("Mood"), enum_variant: name("Calm") }
        .apply(&mut s, &types());
    assert!(HtnCondition::EqualsEnum {
        field: name("mood"),
        enum_type: name("Mood"),
        enum_variant: name("Calm"),
        notted: false,
    }
    .evaluate(&s));
    // A float that is no number equals nothing.
    Effect::SetFloat { field: name("speed"), value: float(f32::NAN) }.apply(&mut s, &types());
    assert!(!HtnCondition::EqualsFloat {
        field: name("speed"),
        value: float(f32::NAN),
        notted: false,
    }
    .evaluate(&s));
}

#[test]
fn effects_say_where_they_fit() {
    let calm = Effect::SetEnum {
        field: name("mood"),
        enum_type: name("Mood"),
        enum_variant: name("Calm"),
    };
    assert!(calm.applies_to(mood("Angry"), None, &types()));
    assert!(!calm.applies_to(Value::Int(1), None, &types()));
    let wild = Effect::SetEnum {
        field: name("mood"),
        enum_type: name("Mood"),
        enum_variant: name("Wild"),
    };
    assert!(!wild.applies_to(mood("Angry"), None, &types()));
    let bump = Effect::IncrementInt { field: name("ammo"), by: 1 };
    assert!(bump.applies_to(Value::Int(i32::MAX - 1), None, &types()));
    assert!(!bump.applies_to(Value::Int(i32::MAX), None, &types()));
    let copy = Effect::SetIdentifier { field: name("ammo"), field_source: name("alive") };
    assert!(!copy.applies_to(Value::Int(1), Some(Value::Bool(true)), &types()));
    assert_eq!(copy.source_field(), Some(name("alive")));
    assert_eq!(copy.field(), name("ammo"));
}

#[test]
fn effects_are_written_and_checked() {
    let registry = TypeRegistry::new();
    let field = name("ammo");
    let cases = [
        (Effect::SetBool { field, value: false }, "ammo = false"),
        (Effect::SetInt { field, value: 7 }, "ammo = 7"),
        (Effect::SetFloat { field, value: float(-0.5) }, "ammo = -0.5"),
        (
            Effect::SetEnum { field, enum_type: name("Mood"), enum_variant: name("Calm") },
            "ammo = Mood::Calm",
        ),
        (Effect::SetNone { field }, "ammo = None"),
        (Effect::SetIdentifier { field, field_source: name("reserve") }, "ammo = reserve"),
        (Effect::IncrementInt { field, by: -3 }, "ammo += -3"),
        (Effect::IncrementFloat { field, by: float(1.25) }, "ammo += 1.25"),
    ];
    for (effect, text) in cases {
        assert_eq!(effect.syntax(), text);
    }
    assert!(Effect::SetInt { field, value: 7 }.verify(&state(), &registry).is_ok());
    assert_eq!(
        Effect::SetIdentifier { field, field_source: name("gold") }
            .verify(&state(), &registry)
            .unwrap_err(),
        HtnError::Effect {
            syntax: "ammo = gold".to_string(),
            details: "State has no field `gold`".to_string(),
        }
    );
    assert_eq!(
        Effect::SetEnum { field, enum_type: name("Mood"), enum_variant: name("Calm") }
            .verify(&state(), &registry)
            .unwrap_err(),
        HtnError::Effect {
            syntax: "ammo = Mood::Calm".to_string(),
            details: "Enum type `Mood` is not registered".to_string(),
        }
    );
    assert!(Effect::SetInt { field, value: 7 }
        .verify(&FieldState { is_struct: false, fields: vec![] }, &registry)
        .is_err());
}

#[test]
fn options_are_recognised_by_their_variants() {
    assert!(represents_option(&vec![name("None"), name("Some")]));
    assert!(!represents_option(&vec![name("Some"), name("None")]));
    assert!(!represents_option(&vec![name("None")]));
    assert!(!values_equal(option("Some", 1), option("Some", 2)));
    assert!(values_equal(option("Some", 1), option("Some", 1)));
    assert!(!values_equal(Value::Int(1), Value::Bool(true)));
}

#[test]
fn operators_are_verified_against_the_registry() {
    let registry = TypeRegistry::new();
    let params = vec![name("ammo")];
    // `String` is registered and has a default.
    assert!(verify_operator(&registry, "String", &params, true).is_ok());
    assert!(verify_operator(&registry, "alloc::string::String", &params, true).is_ok());
    let missing = |e: HtnError, what: &str| match e {
        HtnError::Operator { name, params, details } => {
            assert!(!name.is_empty());
            assert_eq!(params, vec!["ammo".to_string()]);
            assert!(details.starts_with(what), "{details}");
        }
        other => panic!("{other:?}"),
    };
    missing(
        verify_operator(&registry, "Shoot", &params, true).unwrap_err(),
        "No type registry entry",
    );
    missing(
        verify_operator(&registry, "String", &params, false).unwrap_err(),
        "Missing ReflectHtnOperator",
    );
    let mut bare = TypeRegistry::empty();
    bare.register::<std::ops::RangeFull>();
    missing(
        verify_operator(&bare, "core::ops::RangeFull", &params, true).unwrap_err(),
        "Missing ReflectDefault",
    );
}

#[test]
fn operators_take_their_parameters_from_the_state() {
    let registry = TypeRegistry::new();
    let operator = Operator {
        name: name("String"),
        params: vec![name("ammo"), name("gold"), name("alive")],
    };
    let shot = OperatorValue::Struct(vec![
        (name("alive"), Value::Bool(false)),
        (name("range"), Value::Int(5)),
        (name("ammo"), Value::Int(0)),
    ]);
    match construct_operator(&operator, &state(), &registry, shot).expect("it is registered") {
        OperatorValue::Struct(fields) => {
            assert!(values_equal(fields[0].1, Value::Bool(true)));
            assert!(values_equal(fields[1].1, Value::Int(5)));
            assert!(values_equal(fields[2].1, Value::Int(3)));
        }
        other => panic!("{other:?}"),
    }
    let reserve = Operator { name: name("String"), params: vec![name("ammo"), name("reserve")] };
    let tuple = OperatorValue::Tuple(vec![Value::Int(0), Value::Int(1)]);
    match construct_operator(&reserve, &state(), &registry, tuple).expect("it is registered") {
        OperatorValue::Tuple(fields) => {
            assert!(values_equal(fields[0], Value::Int(10)));
            assert!(values_equal(fields[1], Value::Int(1)));
        }
        other => panic!("{other:?}"),
    }
    let unknown = Operator { name: name("Shoot"), params: vec![] };
    assert!(construct_operator(&unknown, &state(), &registry, OperatorValue::Plain).is_err());
    assert_eq!(unknown.name(), name("Shoot"));
    assert!(unknown.params().is_empty());
    assert_ne!(OperatorStatus::Success, OperatorStatus::Failure);
}

#[test]
fn errors_say_what_is_wrong() {
    let builder = HtnError::Builder { errors: vec!["one".to_string(), "two".to_string()] };
    assert_eq!(builder.message(), "Invalid HTN domain: one; two");
    let single = HtnError::builder("one".to_string());
    assert_eq!(single.message(), "Invalid HTN domain: one");
    assert_eq!(
        HtnError::UnregisteredTask { name: "game::x".to_string() }.message(),
        "Task function `game::x` was never recorded in this domain"
    );
    assert_eq!(
        HtnError::NoPlan.message(),
        "No plan could be found: the search space was exhausted with no valid decomposition"
    );
    let asset = HtnAssetError::from(HtnError::NoPlan);
    assert!(asset.message().starts_with("Failed to parse HTN asset: No plan"));
    assert_eq!(
        HtnAssetError::Io("gone".to_string()).message(),
        "IO error loading HTN asset: gone"
    );
    assert_eq!(HtnAssetLoader.extensions(), vec!["htn"]);
    assert_eq!(HtnAssetSettings::default(), HtnAssetSettings {});
    assert_eq!(
        HtnError::schema("v".to_string()).message(),
        "Invalid schema declaration: v"
    );
    assert_eq!(HtnError::parser("p".to_string()).message(), "Invalid domain file: p");
    assert_eq!(
        HtnError::Operator {
            name: "Shoot".to_string(),
            params: vec!["a".to_string(), "b".to_string()],
            details: "d".to_string(),
        }
        .message(),
        "Invalid operator `Shoot(a, b)`: d"
    );
}
