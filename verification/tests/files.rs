use bevy_bhtn::conditions::{FloatLiteral, HtnCondition};
use bevy_bhtn::dsl::{
    has_shape, parse_compound, parse_condition, parse_effect, parse_goal, parse_htn, parse_method,
    parse_primitive, parse_schema, Pair, Rule, TaskDef,
};
use bevy_bhtn::effects::Effect;
use bevy_bhtn::error::HtnError;
use bevy_bhtn::names::name;

fn node(rule: Rule, text: &str, inner: Vec<Pair>) -> Pair {
    Pair { rule, text: text.to_string(), inner, float: None }
}

fn leaf(rule: Rule, text: &str) -> Pair {
    let mut p = node(rule, text, vec![]);
    if rule == Rule::FloatValue {
        p.float = text.parse::<f32>().ok().map(|x| FloatLiteral {
            bits: x.to_bits(),
            text: name(&format!("{x}")),
        });
    }
    p
}

fn condition(field: &str, op: Rule, value: Pair) -> Pair {
    let text = format!("{field} ? {}", value.text);
    node(
        Rule::Condition,
        &text,
        vec![leaf(Rule::Identifier, field), leaf(op, "?"), value],
    )
}

fn effect(kind: Rule, field: &str, value: Pair) -> Pair {
    let text = format!("{field} = {}", value.text);
    let assign = node(kind, &text, vec![leaf(Rule::Identifier, field), value]);
    node(Rule::Effect, &text, vec![assign])
}

#[test]
fn conditions_are_read() {
    let cases = [
        (Rule::OpEq, leaf(Rule::BoolValue, "true"), "ammo == true"),
        (Rule::OpNeq, leaf(Rule::IntValue, "-7"), "ammo != -7"),
        (Rule::OpEq, leaf(Rule::FloatValue, "1.50"), "ammo == 1.5"),
        (Rule::OpEq, leaf(Rule::NoneValue, "None"), "ammo == None"),
        (Rule::OpNeq, leaf(Rule::EnumValue, "Mood::Calm"), "ammo != Mood::Calm"),
        (Rule::OpEq, leaf(Rule::Identifier, "reserve"), "ammo == reserve"),
        (Rule::OpGt, leaf(Rule::IntValue, "+3"), "ammo > 3"),
        (Rule::OpGte, leaf(Rule::FloatValue, "2"), "ammo >= 2"),
        (Rule::OpGte, leaf(Rule::Identifier, "reserve"), "ammo >= reserve"),
        (Rule::OpLt, leaf(Rule::FloatValue, "-0.25"), "ammo < -0.25"),
        (Rule::OpLte, leaf(Rule::IntValue, "2147483647"), "ammo <= 2147483647"),
        (Rule::OpLt, leaf(Rule::Identifier, "reserve"), "ammo < reserve"),
    ];
    for (op, value, text) in cases {
        let c = parse_condition(&condition("ammo", op, value)).expect("a condition");
        assert_eq!(c.syntax(), text);
    }
    let min = condition("ammo", Rule::OpEq, leaf(Rule::IntValue, "-2147483648"));
    assert!(matches!(
        parse_condition(&min),
        Ok(HtnCondition::EqualsInt { value: i32::MIN, .. })
    ));
}

#[test]
fn conditions_that_cannot_be_read() {
    let cases = [
        (Rule::OpEq, leaf(Rule::IntValue, "2147483648"), "Invalid int `2147483648`"),
        (Rule::OpEq, leaf(Rule::IntValue, "-"), "Invalid int `-`"),
        (Rule::OpEq, leaf(Rule::IntValue, ""), "Invalid int ``"),
        (Rule::OpEq, leaf(Rule::IntValue, "1x"), "Invalid int `1x`"),
        (Rule::OpEq, leaf(Rule::BoolValue, "yes"), "Invalid bool `yes`"),
        (
            Rule::OpEq,
            leaf(Rule::EnumValue, "Mood"),
            "Invalid enum `Mood` — expected `Enum::Variant`",
        ),
        (
            Rule::OpEq,
            leaf(Rule::EnumValue, "a::b::c"),
            "Invalid enum `a::b::c` — expected `Enum::Variant`",
        ),
        (Rule::OpGt, leaf(Rule::BoolValue, "true"), "Unsupported condition"),
        (Rule::OpGt, leaf(Rule::NoneValue, "None"), "Unsupported condition"),
        (Rule::Other, leaf(Rule::IntValue, "1"), "Unsupported condition"),
    ];
    for (op, value, why) in cases {
        let p = condition("ammo", op, value);
        let text = p.text.clone();
        assert_eq!(
            parse_condition(&p).unwrap_err(),
            HtnError::Condition { syntax: text, details: why.to_string() }
        );
    }
    let float = condition("ammo", Rule::OpEq, leaf(Rule::FloatValue, "1.2.3"));
    assert_eq!(
        parse_condition(&float).unwrap_err(),
        HtnError::Effect {
            syntax: float.text.clone(),
            details: "Invalid float `1.2.3`".to_string(),
        }
    );
}

#[test]
fn effects_are_read() {
    let cases = [
        (Rule::SetEffectLiteral, leaf(Rule::BoolValue, "false"), "ammo = false"),
        (Rule::SetEffectLiteral, leaf(Rule::IntValue, "30"), "ammo = 30"),
        (Rule::SetEffectLiteral, leaf(Rule::FloatValue, "0.5"), "ammo = 0.5"),
        (Rule::SetEffectLiteral, leaf(Rule::EnumValue, "Mood::Calm"), "ammo = Mood::Calm"),
        (Rule::SetEffectLiteral, leaf(Rule::NoneValue, "None"), "ammo = None"),
        (Rule::SetEffectIdentifier, leaf(Rule::Identifier, "reserve"), "ammo = reserve"),
        (Rule::SetEffectIncLiteral, leaf(Rule::IntValue, "2"), "ammo += 2"),
        (Rule::SetEffectDecLiteral, leaf(Rule::IntValue, "2"), "ammo += -2"),
        (Rule::SetEffectIncLiteral, leaf(Rule::FloatValue, "1.5"), "ammo += 1.5"),
        (Rule::SetEffectDecLiteral, leaf(Rule::FloatValue, "1.5"), "ammo += -1.5"),
        (Rule::SetEffectDecLiteral, leaf(Rule::FloatValue, "-1.5"), "ammo += 1.5"),
        (Rule::SetEffectIncIdentifier, leaf(Rule::Identifier, "reserve"), "ammo = reserve"),
        (Rule::SetEffectDecIdentifier, leaf(Rule::Identifier, "reserve"), "ammo = reserve"),
    ];
    for (kind, value, text) in cases {
        let e = parse_effect(&effect(kind, "ammo", value)).expect("an effect");
        assert_eq!(e.syntax(), text);
    }
    match parse_effect(&effect(
        Rule::SetEffectDecLiteral,
        "ammo",
        leaf(Rule::FloatValue, "1.5"),
    )) {
        Ok(Effect::IncrementFloat { by, .. }) => assert_eq!(by.bits, (-1.5f32).to_bits()),
        other => panic!("{other:?}"),
    }
    let wrong = effect(Rule::SetEffectIdentifier, "ammo", leaf(Rule::IntValue, "1"));
    assert_eq!(
        parse_effect(&wrong).unwrap_err(),
        HtnError::Effect {
            syntax: wrong.text.clone(),
            details: "Unsupported effect".to_string(),
        }
    );
    let int = effect(Rule::SetEffectLiteral, "ammo", leaf(Rule::IntValue, "x"));
    assert!(matches!(parse_effect(&int), Err(HtnError::Condition { .. })));
}

fn preconditions(list: Vec<Pair>) -> Pair {
    node(Rule::PreconditionsStatement, "preconditions", list)
}

fn reload() -> Pair {
    node(
        Rule::PrimitiveTask,
        "primitive",
        vec![
            leaf(Rule::QuotedString, "\"reload\""),
            node(
                Rule::OperatorStatement,
                "operator",
                vec![node(
                    Rule::Other,
                    "Reload(ammo, reserve)",
                    vec![
                        leaf(Rule::Identifier, "Reload"),
                        leaf(Rule::Identifier, "ammo"),
                        leaf(Rule::Identifier, "reserve"),
                    ],
                )],
            ),
            preconditions(vec![
                condition("ammo", Rule::OpEq, leaf(Rule::IntValue, "0")),
                leaf(Rule::Other, ","),
                condition("reserve", Rule::OpGt, leaf(Rule::IntValue, "0")),
            ]),
            node(
                Rule::EffectsStatement,
                "effects",
                vec![effect(Rule::SetEffectLiteral, "ammo", leaf(Rule::IntValue, "30"))],
            ),
            node(
                Rule::ExpectedEffectsStatement,
                "expected",
                vec![effect(Rule::SetEffectDecLiteral, "reserve", leaf(Rule::IntValue, "30"))],
            ),
        ],
    )
}

fn engage() -> Pair {
    node(
        Rule::CompoundTask,
        "compound",
        vec![
            leaf(Rule::QuotedString, "engage"),
            node(
                Rule::Method,
                "method",
                vec![
                    leaf(Rule::QuotedString, "\"empty\""),
                    preconditions(vec![condition("ammo", Rule::OpEq, leaf(Rule::IntValue, "0"))]),
                    node(
                        Rule::SubtasksStatement,
                        "subtasks",
                        vec![
                            leaf(Rule::Identifier, "reload"),
                            leaf(Rule::Other, ","),
                            leaf(Rule::Identifier, "engage"),
                        ],
                    ),
                ],
            ),
            leaf(Rule::Other, ";"),
            node(Rule::Method, "method", vec![]),
        ],
    )
}

fn goal() -> Pair {
    node(
        Rule::GoalTask,
        "goal",
        vec![
            leaf(Rule::QuotedString, "\"armed\""),
            preconditions(vec![condition("x", Rule::Other, leaf(Rule::Other, "ignored"))]),
            node(
                Rule::EffectsStatement,
                "effects",
                vec![effect(Rule::SetEffectLiteral, "ammo", leaf(Rule::IntValue, "30"))],
            ),
        ],
    )
}

fn schema(version: &str) -> Pair {
    node(
        Rule::Schema,
        "schema",
        vec![node(
            Rule::SchemaVersionStatement,
            "version",
            vec![leaf(Rule::Other, version)],
        )],
    )
}

#[test]
fn tasks_are_read() {
    let p = parse_primitive(&reload()).expect("a primitive task");
    assert_eq!(p.name, name("reload"));
    assert_eq!(p.operator.name, name("Reload"));
    assert_eq!(p.operator.params, vec![name("ammo"), name("reserve")]);
    assert_eq!(p.preconditions.len(), 2);
    assert_eq!(p.preconditions[1].syntax(), "reserve > 0");
    assert_eq!(p.effects[0].syntax(), "ammo = 30");
    assert_eq!(p.expected_effects[0].syntax(), "reserve += -30");
    let c = parse_compound(&engage()).expect("a compound task");
    assert_eq!(c.name, name("engage"));
    assert_eq!(c.methods.len(), 2);
    assert_eq!(c.methods[0].name, Some(name("empty")));
    assert_eq!(c.methods[0].subtasks, vec![name("reload"), name("engage")]);
    assert_eq!(c.methods[1].name, None);
    assert!(c.methods[1].subtasks.is_empty());
    let g = parse_goal(&goal()).expect("a goal task");
    assert_eq!(g.name, name("armed"));
    assert_eq!(g.effects.len(), 1);
    let m = parse_method(&node(
        Rule::Method,
        "method",
        vec![preconditions(vec![condition("a", Rule::OpGt, leaf(Rule::IntValue, "?"))])],
    ));
    assert!(m.is_err());
}

#[test]
fn domains_are_read() {
    let file = node(Rule::Domain, "", vec![schema("1.2.0"), reload(), engage(), goal()]);
    let d = parse_htn(&file).expect("a domain");
    assert_eq!(d.schema, "1.2.0");
    assert_eq!(d.tasks.len(), 3);
    assert!(matches!(&d.tasks[0], TaskDef::Primitive(_)));
    assert!(matches!(&d.tasks[1], TaskDef::Compound(_)));
    assert!(matches!(&d.tasks[2], TaskDef::Goal(_)));
    assert_eq!(d.root(), Some(1));
    let plain = parse_htn(&node(Rule::Domain, "", vec![engage()])).expect("a domain");
    assert_eq!(plain.schema, "0.0.0");
    assert_eq!(plain.root(), Some(0));
    let rootless = parse_htn(&node(Rule::Domain, "", vec![reload()])).expect("a domain");
    assert_eq!(rootless.root(), None);
    let bad_schema = node(Rule::Schema, "schema", vec![leaf(Rule::Other, "oops")]);
    assert_eq!(
        parse_schema(&bad_schema).unwrap_err(),
        HtnError::Schema { details: "oops".to_string() }
    );
    let broken = node(Rule::Domain, "", vec![engage(), bad_schema]);
    assert_eq!(
        parse_htn(&broken).unwrap_err(),
        HtnError::Schema { details: "oops".to_string() }
    );
}

#[test]
fn trees_without_their_parts_are_found_out() {
    let tree = |p: Pair| node(Rule::Domain, "", vec![schema("1.0.0"), p]);
    assert!(has_shape(&tree(reload())));
    assert!(has_shape(&tree(engage())));
    assert!(has_shape(&tree(goal())));
    assert!(has_shape(&tree(leaf(Rule::Other, "anything"))));
    // No operator, no name, no version, half a condition, half an effect.
    let mut unarmed = reload();
    unarmed.inner.remove(1);
    assert!(!has_shape(&tree(unarmed)));
    assert!(!has_shape(&tree(node(Rule::GoalTask, "goal", vec![]))));
    assert!(!has_shape(&tree(node(Rule::CompoundTask, "compound", vec![]))));
    assert!(!has_shape(&tree(node(Rule::Schema, "schema", vec![]))));
    let mut half = engage();
    half.inner[1].inner[1].inner[0].inner.pop();
    assert!(!has_shape(&tree(half)));
    let mut nothing = goal();
    nothing.inner[2].inner[0].inner[0].inner.pop();
    assert!(!has_shape(&tree(nothing)));
    // The smallest integer has no negation to add.
    let mut lowest = goal();
    lowest.inner[2].inner[0] =
        effect(Rule::SetEffectDecLiteral, "ammo", leaf(Rule::IntValue, "-2147483648"));
    assert!(!has_shape(&tree(lowest)));
}

#[test]
fn names_lose_their_quotation_marks() {
    let mut task = goal();
    task.inner[0].text = "\"\"a\"b\"".to_string();
    assert_eq!(parse_goal(&task).unwrap().name, name("a\"b"));
    task.inner[0].text = "\"\"\"".to_string();
    assert_eq!(parse_goal(&task).unwrap().name, name(""));
}

#[test]
fn integers_are_read_back() {
    for n in [0, 1, -1, 9, 10, -10, 12345, i32::MAX, i32::MIN, i32::MIN + 1] {
        let c = HtnCondition::EqualsInt { field: name("x"), value: n, notted: false };
        let text = c.syntax();
        let value = text.rsplit(' ').next().unwrap();
        let read = parse_condition(&condition("x", Rule::OpEq, leaf(Rule::IntValue, value)));
        match read {
            Ok(HtnCondition::EqualsInt { value, .. }) => assert_eq!(value, n),
            other => panic!("{other:?}"),
        }
    }
}
