//! Reading a domain from the parse tree of a domain file.
//!
//! The tree holds, for each piece of the file that matched a rule, the rule, the
//! text, and the pieces inside it.

use crate::conditions::{FloatLiteral, HtnCondition};
use crate::effects::Effect;
use crate::error::{HtnError, HtnResult};
use crate::names::{intern, name_text, text_of};
use crate::operators::Operator;
use crate::text::{bool_text, decimal_text, digit_text, join2, join3, same_text, signed_text};
use crate::values::{float_rank, FLOAT_SIGN};
use ustr::Ustr;
use vstd::prelude::*;
use vstd::string::StrSliceExecFns;

verus! {

/// The rules of a domain file.
#[derive(Debug, Clone, Copy, PartialEq, Eq, Structural)]
pub enum Rule {
    /// The whole file.
    Domain,
    /// The schema declaration.
    Schema,
    /// The version in a schema declaration.
    SchemaVersionStatement,
    /// A primitive task.
    PrimitiveTask,
    /// A compound task.
    CompoundTask,
    /// A goal task.
    GoalTask,
    /// A method of a compound task.
    Method,
    /// The operator of a primitive task.
    OperatorStatement,
    /// The preconditions of a task or method.
    PreconditionsStatement,
    /// The effects of a task or goal.
    EffectsStatement,
    /// The expected effects of a task.
    ExpectedEffectsStatement,
    /// The subtasks of a method.
    SubtasksStatement,
    /// A condition.
    Condition,
    /// An effect.
    Effect,
    /// `field = literal`.
    SetEffectLiteral,
    /// `field = other`.
    SetEffectIdentifier,
    /// `field += literal`.
    SetEffectIncLiteral,
    /// `field -= literal`.
    SetEffectDecLiteral,
    /// `field += other`.
    SetEffectIncIdentifier,
    /// `field -= other`.
    SetEffectDecIdentifier,
    /// `==`.
    OpEq,
    /// `!=`.
    OpNeq,
    /// `>`.
    OpGt,
    /// `>=`.
    OpGte,
    /// `<`.
    OpLt,
    /// `<=`.
    OpLte,
    /// A boolean literal.
    BoolValue,
    /// An integer literal.
    IntValue,
    /// A float literal.
    FloatValue,
    /// An enum literal.
    EnumValue,
    /// The literal `None`.
    NoneValue,
    /// A name.
    Identifier,
    /// A quoted string.
    QuotedString,
    /// Anything else.
    Other,
}

/// A piece of a domain file that matched a rule.
#[derive(Debug)]
pub struct Pair {
    /// The rule.
    pub rule: Rule,
    /// The text.
    pub text: String,
    /// The pieces inside it.
    pub inner: Vec<Pair>,
    /// The float that the text stands for, where it stands for one.
    pub float: Option<FloatLiteral>,
}

/// What is wrong with a piece: whether that is about an effect, the piece's text,
/// and the details.
pub struct Problem {
    /// Whether it is about an effect; otherwise it is about a condition.
    pub effect: bool,
    /// The text of the condition or effect.
    pub syntax: Seq<char>,
    /// What is wrong.
    pub details: Seq<char>,
}

/// Whether an error reports a problem.
pub open spec fn reports(error: HtnError, problem: Problem) -> bool {
    match error {
        HtnError::Condition { syntax, details } => !problem.effect && syntax@ == problem.syntax
            && details@ == problem.details,
        HtnError::Effect { syntax, details } => problem.effect && syntax@ == problem.syntax
            && details@ == problem.details,
        _ => false,
    }
}

/// The value of a decimal digit.
pub open spec fn digit_value(c: char) -> Option<int> {
    if '0' <= c && c <= '9' {
        Some(c as int - '0' as int)
    } else {
        None
    }
}

/// The number that the digits from position `from` up to position `k` stand for;
/// `None` where one of them is no digit.
pub open spec fn digits_value(s: Seq<char>, from: nat, k: nat) -> Option<nat>
    decreases k,
{
    if k <= from {
        Some(0)
    } else {
        match (digits_value(s, from, (k - 1) as nat), digit_value(s[k - 1])) {
            (Some(n), Some(d)) => Some((10 * n + d) as nat),
            _ => None,
        }
    }
}

/// The number that a text stands for: an optional sign and at least one digit.
pub open spec fn number_of(s: Seq<char>) -> Option<int> {
    if s.len() == 0 {
        None
    } else if s[0] == '-' {
        match digits_value(s, 1, s.len()) {
            Some(n) => if s.len() > 1 {
                Some(-(n as int))
            } else {
                None
            },
            None => None,
        }
    } else if s[0] == '+' {
        match digits_value(s, 1, s.len()) {
            Some(n) => if s.len() > 1 {
                Some(n as int)
            } else {
                None
            },
            None => None,
        }
    } else {
        match digits_value(s, 0, s.len()) {
            Some(n) => Some(n as int),
            None => None,
        }
    }
}

/// The integer that a text stands for, where it is in range.
pub open spec fn int_of(s: Seq<char>) -> Option<i32> {
    match number_of(s) {
        Some(n) => if i32::MIN <= n <= i32::MAX {
            Some(n as i32)
        } else {
            None
        },
        None => None,
    }
}

proof fn lemma_digits_grow(s: Seq<char>, from: nat, j: nat, k: nat)
    requires
        j <= k,
    ensures
        digits_value(s, from, k) is Some ==> digits_value(s, from, j) is Some,
        digits_value(s, from, k) is Some ==> digits_value(s, from, j)->Some_0 <= digits_value(
            s,
            from,
            k,
        )->Some_0,
    decreases k,
{
    if j < k && k > from {
        lemma_digits_grow(s, from, j, (k - 1) as nat);
    }
}

/// The integer that a text stands for.
fn read_int(s: &str) -> (n: Option<i32>)
    ensures
        n == int_of(s@),
{
    let len: usize = s.unicode_len();
    if len == 0 {
        return None;
    }
    let first = s.get_char(0);
    let signed: bool = first == '-' || first == '+';
    let from: usize = if signed {
        1
    } else {
        0
    };
    if signed && len == 1 {
        return None;
    }
    let mut value: i64 = 0;
    let mut k: usize = from;
    while k < len
        invariant
            len == s@.len(),
            from <= k <= len,
            0 <= value <= 0x8000_0000,
            digits_value(s@, from as nat, k as nat) == Some(value as nat),
            from == (if s@[0] == '-' || s@[0] == '+' {
                1nat
            } else {
                0nat
            }),
            len > from,
        decreases len - k,
    {
        let c = s.get_char(k);
        if c < '0' || c > '9' {
            proof {
                lemma_digits_grow(s@, from as nat, (k + 1) as nat, len as nat);
            }
            return None;
        }
        let d: i64 = (c as u32 - '0' as u32) as i64;
        let next: i64 = 10 * value + d;
        assert(digits_value(s@, from as nat, (k + 1) as nat) == Some(next as nat));
        if next > 0x8000_0000 {
            proof {
                lemma_digits_grow(s@, from as nat, (k + 1) as nat, len as nat);
            }
            return None;
        }
        value = next;
        k = k + 1;
    }
    let number: i64 = if first == '-' {
        -value
    } else {
        value
    };
    if number < i32::MIN as i64 || number > i32::MAX as i64 {
        None
    } else {
        Some(number as i32)
    }
}

/// The details of a literal that cannot be read.
pub open spec fn invalid(kind: Seq<char>, text: Seq<char>) -> Seq<char> {
    "Invalid "@ + kind + " `"@ + text + "`"@
}

fn invalid_text(kind: &str, text: &str) -> (details: String)
    ensures
        details@ == invalid(kind@, text@),
{
    let front = join3("Invalid ", kind, " `");
    join3(front.as_str(), text, "`")
}

fn parse_i32(s: &str, ctx: &str) -> (r: HtnResult<i32>)
    ensures
        match int_of(s@) {
            Some(n) => r == Ok::<i32, HtnError>(n),
            None => r matches Err(e) && reports(
                e,
                (Problem { effect: false, syntax: ctx@, details: invalid("int"@, s@) }),
            ),
        },
{
    match read_int(s) {
        Some(n) => Ok(n),
        None => Err(
            HtnError::Condition { syntax: ctx.to_owned(), details: invalid_text("int", s) },
        ),
    }
}

fn parse_f32(value: &Pair, ctx: &str) -> (r: HtnResult<FloatLiteral>)
    ensures
        match value.float {
            Some(f) => r == Ok::<FloatLiteral, HtnError>(f),
            None => r matches Err(e) && reports(
                e,
                (Problem { effect: true, syntax: ctx@, details: invalid("float"@, value.text@) }),
            ),
        },
{
    match value.float {
        Some(f) => Ok(f),
        None => Err(
            HtnError::Effect {
                syntax: ctx.to_owned(),
                details: invalid_text("float", value.text.as_str()),
            },
        ),
    }
}

/// The truth value that a text stands for.
pub open spec fn bool_of(s: Seq<char>) -> Option<bool> {
    if s == "true"@ {
        Some(true)
    } else if s == "false"@ {
        Some(false)
    } else {
        None
    }
}

fn parse_bool(s: &str, ctx: &str) -> (r: HtnResult<bool>)
    ensures
        match bool_of(s@) {
            Some(b) => r == Ok::<bool, HtnError>(b),
            None => r matches Err(e) && reports(
                e,
                (Problem { effect: false, syntax: ctx@, details: invalid("bool"@, s@) }),
            ),
        },
{
    if same_text(s, "true") {
        Ok(true)
    } else if same_text(s, "false") {
        Ok(false)
    } else {
        Err(HtnError::Condition { syntax: ctx.to_owned(), details: invalid_text("bool", s) })
    }
}

/// Where the first `::` from position `k` on starts.
pub open spec fn separator_from(s: Seq<char>, k: nat) -> Option<nat>
    decreases s.len() - k,
{
    if k + 1 >= s.len() {
        None
    } else if s[k as int] == ':' && s[(k + 1) as int] == ':' {
        Some(k)
    } else {
        separator_from(s, k + 1)
    }
}

/// The type and the variant that an enum literal names: the parts around its one
/// `::`.
pub open spec fn enum_of(s: Seq<char>) -> Option<(Seq<char>, Seq<char>)> {
    match separator_from(s, 0) {
        Some(i) => if separator_from(s, i + 2) is None {
            Some((s.take(i as int), s.skip((i + 2) as int)))
        } else {
            None
        },
        None => None,
    }
}

fn find_separator(s: &str, from: usize) -> (at: Option<usize>)
    ensures
        match separator_from(s@, from as nat) {
            Some(i) => at matches Some(k) && k == i && from <= k && k + 2 <= s@.len(),
            None => at is None,
        },
{
    let len: usize = s.unicode_len();
    let mut k: usize = from;
    while k < len && len - k >= 2
        invariant
            len == s@.len(),
            from <= k,
            k <= len || k == from,
            separator_from(s@, from as nat) == separator_from(s@, k as nat),
        decreases len + 1 - k,
    {
        if s.get_char(k) == ':' && s.get_char(k + 1) == ':' {
            return Some(k);
        }
        k = k + 1;
    }
    None
}

/// The details of an enum literal that cannot be read.
pub open spec fn invalid_enum(s: Seq<char>) -> Seq<char> {
    "Invalid enum `"@ + s + "` — expected `Enum::Variant`"@
}

fn parse_enum(s: &str, ctx: &str) -> (r: HtnResult<(Ustr, Ustr)>)
    ensures
        match enum_of(s@) {
            Some((ty, variant)) => r matches Ok(pair) && text_of(pair.0) == ty && text_of(pair.1)
                == variant,
            None => r matches Err(e) && reports(
                e,
                (Problem { effect: false, syntax: ctx@, details: invalid_enum(s@) }),
            ),
        },
{
    let len: usize = s.unicode_len();
    if let Some(i) = find_separator(s, 0) {
        if find_separator(s, i + 2).is_none() {
            let ty = s.substring_char(0, i);
            let variant = s.substring_char(i + 2, len);
            assert(ty@ =~= s@.take(i as int));
            assert(variant@ =~= s@.skip(i + 2));
            return Ok((intern(ty), intern(variant)));
        }
    }
    Err(
        HtnError::Condition {
            syntax: ctx.to_owned(),
            details: join3("Invalid enum `", s, "` — expected `Enum::Variant`"),
        },
    )
}

/// Whether a piece has the parts of a condition: a field, an operator, a value.
pub open spec fn condition_shaped(p: Pair) -> bool {
    p.inner@.len() >= 3
}

/// The problem with a literal of a condition or effect.
pub open spec fn literal_problem(syntax: Seq<char>, value: Pair) -> Option<Problem> {
    match value.rule {
        Rule::IntValue => if int_of(value.text@) is Some {
            None
        } else {
            Some(Problem { effect: false, syntax, details: invalid("int"@, value.text@) })
        },
        Rule::FloatValue => if value.float is Some {
            None
        } else {
            Some(Problem { effect: true, syntax, details: invalid("float"@, value.text@) })
        },
        Rule::BoolValue => if bool_of(value.text@) is Some {
            None
        } else {
            Some(Problem { effect: false, syntax, details: invalid("bool"@, value.text@) })
        },
        Rule::EnumValue => if enum_of(value.text@) is Some {
            None
        } else {
            Some(Problem { effect: false, syntax, details: invalid_enum(value.text@) })
        },
        _ => None,
    }
}

/// Whether an operator orders.
pub open spec fn orders(op: Rule) -> bool {
    op is OpGt || op is OpGte || op is OpLt || op is OpLte
}

/// Whether an operator tests equality.
pub open spec fn equates(op: Rule) -> bool {
    op is OpEq || op is OpNeq
}

/// What is wrong with a condition.
pub open spec fn condition_problem(p: Pair) -> Option<Problem> {
    let op = p.inner@[1].rule;
    let value = p.inner@[2];
    let unsupported = Problem {
        effect: false,
        syntax: p.text@,
        details: "Unsupported condition"@,
    };
    if orders(op) && (value.rule is IntValue || value.rule is FloatValue || value.rule
        is Identifier) {
        literal_problem(p.text@, value)
    } else if equates(op) && (value.rule is BoolValue || value.rule is NoneValue || value.rule
        is IntValue || value.rule is FloatValue || value.rule is EnumValue || value.rule
        is Identifier) {
        literal_problem(p.text@, value)
    } else {
        Some(unsupported)
    }
}

/// Whether a condition is what a piece says.
pub open spec fn condition_read(p: Pair, c: HtnCondition) -> bool {
    let name = p.inner@[0].text@;
    let op = p.inner@[1].rule;
    let v = p.inner@[2];
    let equal = op is OpGte || op is OpLte;
    let negated = op is OpNeq;
    if op is OpGt || op is OpGte {
        match v.rule {
            Rule::IntValue => c matches HtnCondition::GreaterThanInt { field, threshold, orequals }
                && text_of(field) == name && int_of(v.text@) == Some(threshold) && orequals == equal,
            Rule::FloatValue => c matches HtnCondition::GreaterThanFloat {
                field,
                threshold,
                orequals,
            } && text_of(field) == name && v.float == Some(threshold) && orequals == equal,
            _ => c matches HtnCondition::GreaterThanIdentifier { field, other_field, orequals }
                && text_of(field) == name && text_of(other_field) == v.text@ && orequals == equal,
        }
    } else if op is OpLt || op is OpLte {
        match v.rule {
            Rule::IntValue => c matches HtnCondition::LessThanInt { field, threshold, orequals }
                && text_of(field) == name && int_of(v.text@) == Some(threshold) && orequals == equal,
            Rule::FloatValue => c matches HtnCondition::LessThanFloat { field, threshold, orequals }
                && text_of(field) == name && v.float == Some(threshold) && orequals == equal,
            _ => c matches HtnCondition::LessThanIdentifier { field, other_field, orequals }
                && text_of(field) == name && text_of(other_field) == v.text@ && orequals == equal,
        }
    } else {
        match v.rule {
            Rule::BoolValue => c matches HtnCondition::EqualsBool { field, value, notted }
                && text_of(field) == name && bool_of(v.text@) == Some(value) && notted == negated,
            Rule::NoneValue => c matches HtnCondition::EqualsNone { field, notted } && text_of(field)
                == name && notted == negated,
            Rule::IntValue => c matches HtnCondition::EqualsInt { field, value, notted } && text_of(
                field,
            ) == name && int_of(v.text@) == Some(value) && notted == negated,
            Rule::FloatValue => c matches HtnCondition::EqualsFloat { field, value, notted }
                && text_of(field) == name && v.float == Some(value) && notted == negated,
            Rule::EnumValue => c matches HtnCondition::EqualsEnum {
                field,
                enum_type,
                enum_variant,
                notted,
            } && text_of(field) == name && enum_of(v.text@) == Some(
                (text_of(enum_type), text_of(enum_variant)),
            ) && notted == negated,
            _ => c matches HtnCondition::EqualsIdentifier { field, other_field, notted } && text_of(
                field,
            ) == name && text_of(other_field) == v.text@ && notted == negated,
        }
    }
}

/// Reads a condition.
pub fn parse_condition(pair: &Pair) -> (r: HtnResult<HtnCondition>)
    requires
        condition_shaped(*pair),
    ensures
        match r {
            Ok(c) => condition_problem(*pair) is None && condition_read(*pair, c),
            Err(e) => condition_problem(*pair) matches Some(problem) && reports(e, problem),
        },
{
    let syntax = pair.text.as_str();
    let field = intern(pair.inner[0].text.as_str());
    let op = pair.inner[1].rule;
    let value = &pair.inner[2];
    let text = value.text.as_str();
    let notted: bool = op == Rule::OpNeq;
    let orequals: bool = op == Rule::OpGte || op == Rule::OpLte;
    match (op, value.rule) {
        (Rule::OpGt, Rule::IntValue) | (Rule::OpGte, Rule::IntValue) => {
            match parse_i32(text, syntax) {
                Ok(threshold) => Ok(HtnCondition::GreaterThanInt { field, threshold, orequals }),
                Err(e) => Err(e),
            }
        },
        (Rule::OpLt, Rule::IntValue) | (Rule::OpLte, Rule::IntValue) => {
            match parse_i32(text, syntax) {
                Ok(threshold) => Ok(HtnCondition::LessThanInt { field, threshold, orequals }),
                Err(e) => Err(e),
            }
        },
        (Rule::OpGt, Rule::FloatValue) | (Rule::OpGte, Rule::FloatValue) => {
            match parse_f32(value, syntax) {
                Ok(threshold) => Ok(HtnCondition::GreaterThanFloat { field, threshold, orequals }),
                Err(e) => Err(e),
            }
        },
        (Rule::OpLt, Rule::FloatValue) | (Rule::OpLte, Rule::FloatValue) => {
            match parse_f32(value, syntax) {
                Ok(threshold) => Ok(HtnCondition::LessThanFloat { field, threshold, orequals }),
                Err(e) => Err(e),
            }
        },
        (Rule::OpGt, Rule::Identifier) | (Rule::OpGte, Rule::Identifier) => Ok(
            HtnCondition::GreaterThanIdentifier { field, other_field: intern(text), orequals },
        ),
        (Rule::OpLt, Rule::Identifier) | (Rule::OpLte, Rule::Identifier) => Ok(
            HtnCondition::LessThanIdentifier { field, other_field: intern(text), orequals },
        ),
        (Rule::OpEq, Rule::BoolValue) | (Rule::OpNeq, Rule::BoolValue) => {
            match parse_bool(text, syntax) {
                Ok(value) => Ok(HtnCondition::EqualsBool { field, value, notted }),
                Err(e) => Err(e),
            }
        },
        (Rule::OpEq, Rule::NoneValue) | (Rule::OpNeq, Rule::NoneValue) => Ok(
            HtnCondition::EqualsNone { field, notted },
        ),
        (Rule::OpEq, Rule::IntValue) | (Rule::OpNeq, Rule::IntValue) => {
            match parse_i32(text, syntax) {
                Ok(value) => Ok(HtnCondition::EqualsInt { field, value, notted }),
                Err(e) => Err(e),
            }
        },
        (Rule::OpEq, Rule::FloatValue) | (Rule::OpNeq, Rule::FloatValue) => {
            match parse_f32(value, syntax) {
                Ok(value) => Ok(HtnCondition::EqualsFloat { field, value, notted }),
                Err(e) => Err(e),
            }
        },
        (Rule::OpEq, Rule::EnumValue) | (Rule::OpNeq, Rule::EnumValue) => {
            match parse_enum(text, syntax) {
                Ok((enum_type, enum_variant)) => Ok(
                    HtnCondition::EqualsEnum { field, enum_type, enum_variant, notted },
                ),
                Err(e) => Err(e),
            }
        },
        (Rule::OpEq, Rule::Identifier) | (Rule::OpNeq, Rule::Identifier) => Ok(
            HtnCondition::EqualsIdentifier { field, other_field: intern(text), notted },
        ),
        _ => Err(
            HtnError::Condition {
                syntax: syntax.to_owned(),
                details: "Unsupported condition".to_owned(),
            },
        ),
    }
}

/// Whether a piece has the parts of an effect: an assignment of a value to a
/// field. The smallest integer has no negation, and is not subtracted.
pub open spec fn effect_shaped(p: Pair) -> bool {
    &&& p.inner@.len() >= 1
    &&& p.inner@[0].inner@.len() >= 2
    &&& p.inner@[0].rule is SetEffectDecLiteral && p.inner@[0].inner@[1].rule is IntValue
        ==> int_of(p.inner@[0].inner@[1].text@) != Some(i32::MIN)
}

/// What is wrong with an effect.
pub open spec fn effect_problem(p: Pair) -> Option<Problem> {
    let kind = p.inner@[0].rule;
    let value = p.inner@[0].inner@[1];
    if kind is SetEffectLiteral && (value.rule is BoolValue || value.rule is IntValue || value.rule
        is FloatValue || value.rule is EnumValue || value.rule is NoneValue) {
        literal_problem(p.text@, value)
    } else if (kind is SetEffectIncLiteral || kind is SetEffectDecLiteral) && (value.rule
        is IntValue || value.rule is FloatValue) {
        literal_problem(p.text@, value)
    } else if (kind is SetEffectIdentifier || kind is SetEffectIncIdentifier || kind
        is SetEffectDecIdentifier) && value.rule is Identifier {
        None
    } else {
        Some(Problem { effect: true, syntax: p.text@, details: "Unsupported effect"@ })
    }
}

/// The bits of a float with the opposite sign.
pub open spec fn negated_bits(bits: u32) -> u32 {
    if bits >= FLOAT_SIGN {
        (bits - FLOAT_SIGN) as u32
    } else {
        (bits + FLOAT_SIGN) as u32
    }
}

/// How a float with the opposite sign is written; what is no number has no sign.
pub open spec fn negated_text(text: Seq<char>) -> Seq<char> {
    if text == "NaN"@ {
        text
    } else if text.len() > 0 && text[0] == '-' {
        text.skip(1)
    } else {
        "-"@ + text
    }
}

fn negated(f: FloatLiteral) -> (r: FloatLiteral)
    ensures
        r.bits == negated_bits(f.bits),
        text_of(r.text) == negated_text(text_of(f.text)),
{
    let bits: u32 = if f.bits >= FLOAT_SIGN {
        f.bits - FLOAT_SIGN
    } else {
        f.bits + FLOAT_SIGN
    };
    let text = name_text(f.text);
    let len: usize = text.unicode_len();
    if same_text(text, "NaN") {
        return FloatLiteral { bits, text: f.text };
    }
    if len > 0 && text.get_char(0) == '-' {
        let rest = text.substring_char(1, len);
        assert(rest@ =~= text@.skip(1));
        return FloatLiteral { bits, text: intern(rest) };
    }
    let whole = join2("-", text);
    FloatLiteral { bits, text: intern(whole.as_str()) }
}

/// Whether an effect is what a piece says. Adding or subtracting another field
/// copies it.
pub open spec fn effect_read(p: Pair, e: Effect) -> bool {
    let kind = p.inner@[0].rule;
    let name = p.inner@[0].inner@[0].text@;
    let v = p.inner@[0].inner@[1];
    if v.rule is Identifier {
        e matches Effect::SetIdentifier { field, field_source } && text_of(field) == name && text_of(
            field_source,
        ) == v.text@
    } else if kind is SetEffectLiteral {
        match v.rule {
            Rule::BoolValue => e matches Effect::SetBool { field, value } && text_of(field) == name
                && bool_of(v.text@) == Some(value),
            Rule::IntValue => e matches Effect::SetInt { field, value } && text_of(field) == name
                && int_of(v.text@) == Some(value),
            Rule::FloatValue => e matches Effect::SetFloat { field, value } && text_of(field) == name
                && v.float == Some(value),
            Rule::EnumValue => e matches Effect::SetEnum { field, enum_type, enum_variant }
                && text_of(field) == name && enum_of(v.text@) == Some(
                (text_of(enum_type), text_of(enum_variant)),
            ),
            _ => e matches Effect::SetNone { field } && text_of(field) == name,
        }
    } else if v.rule is IntValue {
        e matches Effect::IncrementInt { field, by } && text_of(field) == name && (int_of(v.text@)
            matches Some(n) && by == if kind is SetEffectDecLiteral {
            -n
        } else {
            n as int
        })
    } else {
        e matches Effect::IncrementFloat { field, by } && text_of(field) == name && (v.float
            matches Some(f) && if kind is SetEffectDecLiteral {
            by.bits == negated_bits(f.bits) && text_of(by.text) == negated_text(text_of(f.text))
        } else {
            by == f
        })
    }
}

/// Reads an effect.
pub fn parse_effect(pair: &Pair) -> (r: HtnResult<Effect>)
    requires
        effect_shaped(*pair),
    ensures
        match r {
            Ok(effect) => effect_problem(*pair) is None && effect_read(*pair, effect),
            Err(e) => effect_problem(*pair) matches Some(problem) && reports(e, problem),
        },
{
    let syntax = pair.text.as_str();
    let assign = &pair.inner[0];
    let field = intern(assign.inner[0].text.as_str());
    let value = &assign.inner[1];
    let text = value.text.as_str();
    match (assign.rule, value.rule) {
        (Rule::SetEffectLiteral, Rule::BoolValue) => match parse_bool(text, syntax) {
            Ok(value) => Ok(Effect::SetBool { field, value }),
            Err(e) => Err(e),
        },
        (Rule::SetEffectLiteral, Rule::IntValue) => match parse_i32(text, syntax) {
            Ok(value) => Ok(Effect::SetInt { field, value }),
            Err(e) => Err(e),
        },
        (Rule::SetEffectLiteral, Rule::FloatValue) => match parse_f32(value, syntax) {
            Ok(value) => Ok(Effect::SetFloat { field, value }),
            Err(e) => Err(e),
        },
        (Rule::SetEffectLiteral, Rule::EnumValue) => match parse_enum(text, syntax) {
            Ok((enum_type, enum_variant)) => Ok(Effect::SetEnum { field, enum_type, enum_variant }),
            Err(e) => Err(e),
        },
        (Rule::SetEffectLiteral, Rule::NoneValue) => Ok(Effect::SetNone { field }),
        (Rule::SetEffectIdentifier, Rule::Identifier)
        | (Rule::SetEffectIncIdentifier, Rule::Identifier)
        | (Rule::SetEffectDecIdentifier, Rule::Identifier) => Ok(
            Effect::SetIdentifier { field, field_source: intern(text) },
        ),
        (Rule::SetEffectIncLiteral, Rule::IntValue) => match parse_i32(text, syntax) {
            Ok(by) => Ok(Effect::IncrementInt { field, by }),
            Err(e) => Err(e),
        },
        (Rule::SetEffectDecLiteral, Rule::IntValue) => match parse_i32(text, syntax) {
            Ok(by) => Ok(Effect::IncrementInt { field, by: -by }),
            Err(e) => Err(e),
        },
        (Rule::SetEffectIncLiteral, Rule::FloatValue) => match parse_f32(value, syntax) {
            Ok(by) => Ok(Effect::IncrementFloat { field, by }),
            Err(e) => Err(e),
        },
        (Rule::SetEffectDecLiteral, Rule::FloatValue) => match parse_f32(value, syntax) {
            Ok(by) => Ok(Effect::IncrementFloat { field, by: negated(by) }),
            Err(e) => Err(e),
        },
        _ => Err(
            HtnError::Effect {
                syntax: syntax.to_owned(),
                details: "Unsupported effect".to_owned(),
            },
        ),
    }
}

/// The pieces with a rule among the first `n` of a list, in order.
pub open spec fn parts(list: Seq<Pair>, rule: Rule, n: nat) -> Seq<Pair>
    decreases n,
{
    if n == 0 {
        Seq::empty()
    } else if list[n - 1].rule == rule {
        parts(list, rule, (n - 1) as nat).push(list[n - 1])
    } else {
        parts(list, rule, (n - 1) as nat)
    }
}

/// The pieces with a rule inside those with another among the first `n` of a
/// list, in order.
pub open spec fn nested_parts(list: Seq<Pair>, outer: Rule, rule: Rule, n: nat) -> Seq<Pair>
    decreases n,
{
    if n == 0 {
        Seq::empty()
    } else if list[n - 1].rule == outer {
        nested_parts(list, outer, rule, (n - 1) as nat) + parts(
            list[n - 1].inner@,
            rule,
            list[n - 1].inner@.len(),
        )
    } else {
        nested_parts(list, outer, rule, (n - 1) as nat)
    }
}

/// The first problem with the conditions of a list, from position `k` on.
pub open spec fn conditions_problem(list: Seq<Pair>, k: nat) -> Option<Problem>
    decreases list.len() - k,
{
    if k >= list.len() {
        None
    } else if list[k as int].rule is Condition && condition_problem(list[k as int]) is Some {
        condition_problem(list[k as int])
    } else {
        conditions_problem(list, k + 1)
    }
}

/// The first problem with the effects of a list, from position `k` on.
pub open spec fn effects_problem(list: Seq<Pair>, k: nat) -> Option<Problem>
    decreases list.len() - k,
{
    if k >= list.len() {
        None
    } else if list[k as int].rule is Effect && effect_problem(list[k as int]) is Some {
        effect_problem(list[k as int])
    } else {
        effects_problem(list, k + 1)
    }
}

/// Whether conditions are what pieces say, one for one.
pub open spec fn conditions_read(list: Seq<Pair>, conditions: Seq<HtnCondition>) -> bool {
    &&& list.len() == conditions.len()
    &&& forall|i: int| 0 <= i < list.len() ==> condition_read(#[trigger] list[i], conditions[i])
}

/// Whether effects are what pieces say, one for one.
pub open spec fn effects_read(list: Seq<Pair>, effects: Seq<Effect>) -> bool {
    &&& list.len() == effects.len()
    &&& forall|i: int| 0 <= i < list.len() ==> effect_read(#[trigger] list[i], effects[i])
}

/// Whether names are the texts of pieces, one for one.
pub open spec fn names_read(list: Seq<Pair>, names: Seq<Ustr>) -> bool {
    &&& list.len() == names.len()
    &&& forall|i: int| 0 <= i < list.len() ==> (#[trigger] list[i]).text@ == text_of(names[i])
}

/// Whether the conditions and effects inside a statement have their parts.
pub open spec fn statement_shaped(p: Pair) -> bool {
    forall|i: int|
        0 <= i < p.inner@.len() ==> {
            &&& (#[trigger] p.inner@[i]).rule is Condition ==> condition_shaped(p.inner@[i])
            &&& p.inner@[i].rule is Effect ==> effect_shaped(p.inner@[i])
        }
}

/// Reads the conditions inside a statement.
fn parse_conditions(stmt: &Pair) -> (r: HtnResult<Vec<HtnCondition>>)
    requires
        statement_shaped(*stmt),
    ensures
        match r {
            Ok(list) => conditions_problem(stmt.inner@, 0) is None && conditions_read(
                parts(stmt.inner@, Rule::Condition, stmt.inner@.len()),
                list@,
            ),
            Err(e) => conditions_problem(stmt.inner@, 0) matches Some(problem) && reports(e, problem),
        },
{
    let mut out: Vec<HtnCondition> = Vec::new();
    for k in 0..stmt.inner.len()
        invariant
            statement_shaped(*stmt),
            conditions_problem(stmt.inner@, 0) == conditions_problem(stmt.inner@, k as nat),
            conditions_read(parts(stmt.inner@, Rule::Condition, k as nat), out@),
    {
        let part = &stmt.inner[k];
        assert(*part == stmt.inner@[k as int]);
        if part.rule == Rule::Condition {
            match parse_condition(part) {
                Ok(item) => {
                    out.push(item);
                },
                Err(e) => {
                    return Err(e);
                },
            }
        }
    }
    Ok(out)
}

/// Reads the effects inside a statement.
fn parse_effects(stmt: &Pair) -> (r: HtnResult<Vec<Effect>>)
    requires
        statement_shaped(*stmt),
    ensures
        match r {
            Ok(list) => effects_problem(stmt.inner@, 0) is None && effects_read(
                parts(stmt.inner@, Rule::Effect, stmt.inner@.len()),
                list@,
            ),
            Err(e) => effects_problem(stmt.inner@, 0) matches Some(problem) && reports(e, problem),
        },
{
    let mut out: Vec<Effect> = Vec::new();
    for k in 0..stmt.inner.len()
        invariant
            statement_shaped(*stmt),
            effects_problem(stmt.inner@, 0) == effects_problem(stmt.inner@, k as nat),
            effects_read(parts(stmt.inner@, Rule::Effect, k as nat), out@),
    {
        let part = &stmt.inner[k];
        assert(*part == stmt.inner@[k as int]);
        if part.rule == Rule::Effect {
            match parse_effect(part) {
                Ok(item) => {
                    out.push(item);
                },
                Err(e) => {
                    return Err(e);
                },
            }
        }
    }
    Ok(out)
}

/// A text without the quotation marks at its ends.
pub open spec fn unquoted(s: Seq<char>) -> Seq<char>
    decreases s.len(),
{
    if s.len() > 0 && s[0] == '"' {
        unquoted(s.skip(1))
    } else if s.len() > 0 && s.last() == '"' {
        unquoted(s.drop_last())
    } else {
        s
    }
}

/// A text without the quotation marks at its ends.
fn unquote(s: &str) -> (r: &str)
    ensures
        r@ == unquoted(s@),
{
    let len: usize = s.unicode_len();
    let mut from: usize = 0;
    let mut to: usize = len;
    assert(s@.subrange(0, len as int) =~= s@);
    while from < to && s.get_char(from) == '"'
        invariant
            len == s@.len(),
            from <= to <= len,
            to == len,
            unquoted(s@) == unquoted(s@.subrange(from as int, to as int)),
        decreases to - from,
    {
        assert(s@.subrange(from as int, to as int).skip(1) =~= s@.subrange(from + 1, to as int));
        from = from + 1;
    }
    while from < to && s.get_char(to - 1) == '"'
        invariant
            len == s@.len(),
            from <= to <= len,
            from < to ==> s@[from as int] != '"',
            unquoted(s@) == unquoted(s@.subrange(from as int, to as int)),
        decreases to - from,
    {
        assert(s@.subrange(from as int, to as int).drop_last() =~= s@.subrange(
            from as int,
            to - 1,
        ));
        to = to - 1;
    }
    assert(from < to ==> s@.subrange(from as int, to as int).last() == s@[to - 1]);
    s.substring_char(from, to)
}

/// A primitive task of a domain file.
#[derive(Debug)]
pub struct PrimitiveDef {
    /// The task's name.
    pub name: Ustr,
    /// The operator that runs it.
    pub operator: Operator,
    /// Its preconditions.
    pub preconditions: Vec<HtnCondition>,
    /// Its effects.
    pub effects: Vec<Effect>,
    /// Its expected effects.
    pub expected_effects: Vec<Effect>,
}

/// A method of a compound task of a domain file.
#[derive(Debug)]
pub struct MethodDef {
    /// The method's name, if any.
    pub name: Option<Ustr>,
    /// Its preconditions.
    pub preconditions: Vec<HtnCondition>,
    /// The names of its subtasks.
    pub subtasks: Vec<Ustr>,
}

/// A compound task of a domain file.
#[derive(Debug)]
pub struct CompoundDef {
    /// The task's name.
    pub name: Ustr,
    /// Its methods.
    pub methods: Vec<MethodDef>,
}

/// A goal task of a domain file.
#[derive(Debug)]
pub struct GoalDef {
    /// The goal's name.
    pub name: Ustr,
    /// The desired effects.
    pub effects: Vec<Effect>,
}

/// A task of a domain file.
#[derive(Debug)]
pub enum TaskDef {
    /// A primitive task.
    Primitive(PrimitiveDef),
    /// A compound task.
    Compound(CompoundDef),
    /// A goal task.
    Goal(GoalDef),
}

/// What a domain file says.
#[derive(Debug)]
pub struct DomainDef {
    /// The schema version.
    pub schema: String,
    /// The tasks, in declaration order.
    pub tasks: Vec<TaskDef>,
}

/// The first compound task from index `k` on.
pub open spec fn compound_from(tasks: Seq<TaskDef>, k: nat) -> Option<nat>
    decreases tasks.len() - k,
{
    if k >= tasks.len() {
        None
    } else if tasks[k as int] is Compound {
        Some(k)
    } else {
        compound_from(tasks, k + 1)
    }
}

impl DomainDef {
    /// The index of the default root of forward planning: the first compound
    /// task.
    pub fn root(&self) -> (index: Option<usize>)
        ensures
            match compound_from(self.tasks@, 0) {
                Some(k) => index matches Some(i) && i == k,
                None => index is None,
            },
    {
        for i in 0..self.tasks.len()
            invariant
                compound_from(self.tasks@, 0) == compound_from(self.tasks@, i as nat),
        {
            if let TaskDef::Compound(_) = &self.tasks[i] {
                return Some(i);
            }
        }
        None
    }
}

/// Which statements of a task are read.
pub struct Reads {
    /// Preconditions.
    pub preconditions: bool,
    /// Effects.
    pub effects: bool,
    /// Expected effects.
    pub expected: bool,
}

/// What is wrong with a statement.
pub open spec fn statement_problem(p: Pair, reads: Reads) -> Option<Problem> {
    if reads.preconditions && p.rule is PreconditionsStatement {
        conditions_problem(p.inner@, 0)
    } else if reads.effects && p.rule is EffectsStatement {
        effects_problem(p.inner@, 0)
    } else if reads.expected && p.rule is ExpectedEffectsStatement {
        effects_problem(p.inner@, 0)
    } else {
        None
    }
}

/// The first problem with the statements of a list, from position `k` on.
pub open spec fn statements_problem(list: Seq<Pair>, k: nat, reads: Reads) -> Option<Problem>
    decreases list.len() - k,
{
    if k >= list.len() {
        None
    } else if statement_problem(list[k as int], reads) is Some {
        statement_problem(list[k as int], reads)
    } else {
        statements_problem(list, k + 1, reads)
    }
}

/// Whether a task has a name and its statements have their parts.
pub open spec fn task_shaped(p: Pair) -> bool {
    &&& p.inner@.len() >= 1
    &&& forall|i: int|
        0 <= i < p.inner@.len() ==> {
            &&& statement_shaped(#[trigger] p.inner@[i])
            &&& p.inner@[i].rule is OperatorStatement ==> p.inner@[i].inner@.len() >= 1
                && p.inner@[i].inner@[0].inner@.len() >= 1
        }
}

/// The operator that the last operator statement among the first `n` of a list
/// names.
pub open spec fn last_operator(list: Seq<Pair>, n: nat) -> Option<Pair>
    decreases n,
{
    if n == 0 {
        None
    } else if list[n - 1].rule is OperatorStatement {
        Some(list[n - 1].inner@[0])
    } else {
        last_operator(list, (n - 1) as nat)
    }
}

/// Whether an operator is what a piece says: a name and parameters.
pub open spec fn operator_read(p: Pair, op: Operator) -> bool {
    text_of(op.name) == p.inner@[0].text@ && names_read(p.inner@.skip(1), op.params@)
}

fn parse_operator(def: &Pair) -> (op: Operator)
    requires
        def.inner@.len() >= 1,
    ensures
        operator_read(*def, op),
{
    let mut params: Vec<Ustr> = Vec::new();
    let n: usize = def.inner.len() - 1;
    for k in 0..n
        invariant
            n == def.inner@.len() - 1,
            names_read(def.inner@.skip(1).take(k as int), params@),
    {
        params.push(intern(def.inner[k + 1].text.as_str()));
        assert(def.inner@.skip(1).take(k + 1) =~= def.inner@.skip(1).take(k as int).push(
            def.inner@[k + 1],
        ));
    }
    assert(def.inner@.skip(1).take(n as int) =~= def.inner@.skip(1));
    Operator { name: intern(def.inner[0].text.as_str()), params }
}

/// Whether a primitive task is what a piece says. A later operator replaces an
/// earlier one.
pub open spec fn primitive_read(p: Pair, t: PrimitiveDef) -> bool {
    let list = p.inner@.skip(1);
    &&& text_of(t.name) == unquoted(p.inner@[0].text@)
    &&& last_operator(list, list.len()) matches Some(def)
    &&& operator_read(def, t.operator)
    &&& conditions_read(
        nested_parts(list, Rule::PreconditionsStatement, Rule::Condition, list.len()),
        t.preconditions@,
    )
    &&& effects_read(
        nested_parts(list, Rule::EffectsStatement, Rule::Effect, list.len()),
        t.effects@,
    )
    &&& effects_read(
        nested_parts(list, Rule::ExpectedEffectsStatement, Rule::Effect, list.len()),
        t.expected_effects@,
    )
}

/// What is read of a primitive task.
pub open spec fn primitive_reads() -> Reads {
    Reads { preconditions: true, effects: true, expected: true }
}

/// What is wrong with a primitive task.
pub open spec fn primitive_problem(p: Pair) -> Option<Problem> {
    statements_problem(p.inner@.skip(1), 0, primitive_reads())
}

/// Whether a primitive task has its parts, an operator among them.
pub open spec fn primitive_shaped(p: Pair) -> bool {
    task_shaped(p) && last_operator(p.inner@.skip(1), (p.inner@.len() - 1) as nat) is Some
}

proof fn lemma_conditions_join(
    a: Seq<Pair>,
    b: Seq<Pair>,
    x: Seq<HtnCondition>,
    y: Seq<HtnCondition>,
)
    requires
        conditions_read(a, x),
        conditions_read(b, y),
    ensures
        conditions_read(a + b, x + y),
{
    assert forall|i: int| 0 <= i < (a + b).len() implies condition_read(
        #[trigger] (a + b)[i],
        (x + y)[i],
    ) by {
        if i < a.len() {
            assert(condition_read(a[i], x[i]));
        } else {
            assert(condition_read(b[i - a.len()], y[i - a.len()]));
        }
    }
}

proof fn lemma_effects_join(a: Seq<Pair>, b: Seq<Pair>, x: Seq<Effect>, y: Seq<Effect>)
    requires
        effects_read(a, x),
        effects_read(b, y),
    ensures
        effects_read(a + b, x + y),
{
    assert forall|i: int| 0 <= i < (a + b).len() implies effect_read(
        #[trigger] (a + b)[i],
        (x + y)[i],
    ) by {
        if i < a.len() {
            assert(effect_read(a[i], x[i]));
        } else {
            assert(effect_read(b[i - a.len()], y[i - a.len()]));
        }
    }
}

/// Reads a primitive task.
pub fn parse_primitive(pair: &Pair) -> (r: HtnResult<PrimitiveDef>)
    requires
        primitive_shaped(*pair),
    ensures
        match r {
            Ok(t) => primitive_problem(*pair) is None && primitive_read(*pair, t),
            Err(e) => primitive_problem(*pair) matches Some(problem) && reports(e, problem),
        },
{
    let name = intern(unquote(pair.inner[0].text.as_str()));
    let mut operator: Option<Operator> = None;
    let mut preconditions: Vec<HtnCondition> = Vec::new();
    let mut effects: Vec<Effect> = Vec::new();
    let mut expected_effects: Vec<Effect> = Vec::new();
    let n: usize = pair.inner.len() - 1;
    let ghost list = pair.inner@.skip(1);
    for k in 0..n
        invariant
            n == pair.inner@.len() - 1,
            list == pair.inner@.skip(1),
            task_shaped(*pair),
            primitive_problem(*pair) == statements_problem(list, k as nat, primitive_reads()),
            match last_operator(list, k as nat) {
                Some(def) => operator matches Some(op) && operator_read(def, op),
                None => operator is None,
            },
            conditions_read(
                nested_parts(list, Rule::PreconditionsStatement, Rule::Condition, k as nat),
                preconditions@,
            ),
            effects_read(
                nested_parts(list, Rule::EffectsStatement, Rule::Effect, k as nat),
                effects@,
            ),
            effects_read(
                nested_parts(list, Rule::ExpectedEffectsStatement, Rule::Effect, k as nat),
                expected_effects@,
            ),
    {
        let stmt = &pair.inner[k + 1];
        assert(*stmt == list[k as int]);
        assert(*stmt == pair.inner@[k + 1]);
        let ghost own_conditions = parts(stmt.inner@, Rule::Condition, stmt.inner@.len());
        let ghost own_effects = parts(stmt.inner@, Rule::Effect, stmt.inner@.len());
        match stmt.rule {
            Rule::OperatorStatement => {
                operator = Some(parse_operator(&stmt.inner[0]));
            },
            Rule::PreconditionsStatement => {
                match parse_conditions(stmt) {
                    Ok(mut more) => {
                        proof {
                            lemma_conditions_join(
                                nested_parts(
                                    list,
                                    Rule::PreconditionsStatement,
                                    Rule::Condition,
                                    k as nat,
                                ),
                                own_conditions,
                                preconditions@,
                                more@,
                            );
                        }
                        preconditions.append(&mut more);
                    },
                    Err(e) => {
                        return Err(e);
                    },
                }
            },
            Rule::EffectsStatement => {
                match parse_effects(stmt) {
                    Ok(mut more) => {
                        proof {
                            lemma_effects_join(
                                nested_parts(list, Rule::EffectsStatement, Rule::Effect, k as nat),
                                own_effects,
                                effects@,
                                more@,
                            );
                        }
                        effects.append(&mut more);
                    },
                    Err(e) => {
                        return Err(e);
                    },
                }
            },
            Rule::ExpectedEffectsStatement => {
                match parse_effects(stmt) {
                    Ok(mut more) => {
                        proof {
                            lemma_effects_join(
                                nested_parts(
                                    list,
                                    Rule::ExpectedEffectsStatement,
                                    Rule::Effect,
                                    k as nat,
                                ),
                                own_effects,
                                expected_effects@,
                                more@,
                            );
                        }
                        expected_effects.append(&mut more);
                    },
                    Err(e) => {
                        return Err(e);
                    },
                }
            },
            _ => {},
        }
    }
    Ok(
        PrimitiveDef {
            name,
            operator: operator.unwrap(),
            preconditions,
            effects,
            expected_effects,
        },
    )
}

/// The statements of a method: what follows its name, if it has one.
pub open spec fn method_statements(p: Pair) -> Seq<Pair> {
    if p.inner@.len() > 0 && p.inner@[0].rule is QuotedString {
        p.inner@.skip(1)
    } else {
        p.inner@
    }
}

/// Whether the statements of a method have their parts.
pub open spec fn method_shaped(p: Pair) -> bool {
    forall|i: int| 0 <= i < p.inner@.len() ==> statement_shaped(#[trigger] p.inner@[i])
}

/// What is read of a method.
pub open spec fn method_reads() -> Reads {
    Reads { preconditions: true, effects: false, expected: false }
}

/// What is wrong with a method.
pub open spec fn method_problem(p: Pair) -> Option<Problem> {
    statements_problem(method_statements(p), 0, method_reads())
}

/// Whether a method is what a piece says.
pub open spec fn method_read(p: Pair, m: MethodDef) -> bool {
    let list = method_statements(p);
    &&& match m.name {
        Some(name) => p.inner@.len() > 0 && p.inner@[0].rule is QuotedString && text_of(name)
            == unquoted(p.inner@[0].text@),
        None => !(p.inner@.len() > 0 && p.inner@[0].rule is QuotedString),
    }
    &&& conditions_read(
        nested_parts(list, Rule::PreconditionsStatement, Rule::Condition, list.len()),
        m.preconditions@,
    )
    &&& names_read(
        nested_parts(list, Rule::SubtasksStatement, Rule::Identifier, list.len()),
        m.subtasks@,
    )
}

/// Reads the names inside a statement.
fn parse_names(stmt: &Pair) -> (names: Vec<Ustr>)
    ensures
        names_read(parts(stmt.inner@, Rule::Identifier, stmt.inner@.len()), names@),
{
    let mut out: Vec<Ustr> = Vec::new();
    for k in 0..stmt.inner.len()
        invariant
            names_read(parts(stmt.inner@, Rule::Identifier, k as nat), out@),
    {
        let part = &stmt.inner[k];
        assert(*part == stmt.inner@[k as int]);
        if part.rule == Rule::Identifier {
            out.push(intern(part.text.as_str()));
        }
    }
    out
}

/// Reads a method.
pub fn parse_method(pair: &Pair) -> (r: HtnResult<MethodDef>)
    requires
        method_shaped(*pair),
    ensures
        match r {
            Ok(m) => method_problem(*pair) is None && method_read(*pair, m),
            Err(e) => method_problem(*pair) matches Some(problem) && reports(e, problem),
        },
{
    let mut name: Option<Ustr> = None;
    let mut from: usize = 0;
    if pair.inner.len() > 0 && pair.inner[0].rule == Rule::QuotedString {
        name = Some(intern(unquote(pair.inner[0].text.as_str())));
        from = 1;
    }
    let mut preconditions: Vec<HtnCondition> = Vec::new();
    let mut subtasks: Vec<Ustr> = Vec::new();
    let n: usize = pair.inner.len() - from;
    let ghost list = method_statements(*pair);
    for k in 0..n
        invariant
            from <= 1,
            n == pair.inner@.len() - from,
            list == method_statements(*pair),
            list == pair.inner@.skip(from as int),
            method_shaped(*pair),
            method_problem(*pair) == statements_problem(list, k as nat, method_reads()),
            conditions_read(
                nested_parts(list, Rule::PreconditionsStatement, Rule::Condition, k as nat),
                preconditions@,
            ),
            names_read(
                nested_parts(list, Rule::SubtasksStatement, Rule::Identifier, k as nat),
                subtasks@,
            ),
    {
        let stmt = &pair.inner[k + from];
        assert(*stmt == list[k as int]);
        assert(*stmt == pair.inner@[k + from]);
        match stmt.rule {
            Rule::PreconditionsStatement => {
                match parse_conditions(stmt) {
                    Ok(mut more) => {
                        proof {
                            lemma_conditions_join(
                                nested_parts(
                                    list,
                                    Rule::PreconditionsStatement,
                                    Rule::Condition,
                                    k as nat,
                                ),
                                parts(stmt.inner@, Rule::Condition, stmt.inner@.len()),
                                preconditions@,
                                more@,
                            );
                        }
                        preconditions.append(&mut more);
                    },
                    Err(e) => {
                        return Err(e);
                    },
                }
            },
            Rule::SubtasksStatement => {
                let mut more = parse_names(stmt);
                proof {
                    lemma_names_join(
                        nested_parts(list, Rule::SubtasksStatement, Rule::Identifier, k as nat),
                        parts(stmt.inner@, Rule::Identifier, stmt.inner@.len()),
                        subtasks@,
                        more@,
                    );
                }
                subtasks.append(&mut more);
            },
            _ => {},
        }
    }
    Ok(MethodDef { name, preconditions, subtasks })
}

proof fn lemma_names_join(a: Seq<Pair>, b: Seq<Pair>, x: Seq<Ustr>, y: Seq<Ustr>)
    requires
        names_read(a, x),
        names_read(b, y),
    ensures
        names_read(a + b, x + y),
{
    assert forall|i: int| 0 <= i < (a + b).len() implies (#[trigger] (a + b)[i]).text@ == text_of(
        (x + y)[i],
    ) by {
        if i < a.len() {
            assert(a[i].text@ == text_of(x[i]));
        } else {
            assert(b[i - a.len()].text@ == text_of(y[i - a.len()]));
        }
    }
}

/// Whether a compound task has a name and its methods have their parts.
pub open spec fn compound_shaped(p: Pair) -> bool {
    &&& p.inner@.len() >= 1
    &&& forall|i: int|
        0 <= i < p.inner@.len() ==> ((#[trigger] p.inner@[i]).rule is Method ==> method_shaped(
            p.inner@[i],
        ))
}

/// The first problem with the methods of a list, from position `k` on.
pub open spec fn methods_problem(list: Seq<Pair>, k: nat) -> Option<Problem>
    decreases list.len() - k,
{
    if k >= list.len() {
        None
    } else if list[k as int].rule is Method && method_problem(list[k as int]) is Some {
        method_problem(list[k as int])
    } else {
        methods_problem(list, k + 1)
    }
}

/// What is wrong with a compound task.
pub open spec fn compound_problem(p: Pair) -> Option<Problem> {
    methods_problem(p.inner@.skip(1), 0)
}

/// Whether methods are what pieces say, one for one.
pub open spec fn methods_read(list: Seq<Pair>, methods: Seq<MethodDef>) -> bool {
    &&& list.len() == methods.len()
    &&& forall|i: int| 0 <= i < list.len() ==> method_read(#[trigger] list[i], methods[i])
}

/// Whether a compound task is what a piece says.
pub open spec fn compound_read(p: Pair, t: CompoundDef) -> bool {
    let list = p.inner@.skip(1);
    &&& text_of(t.name) == unquoted(p.inner@[0].text@)
    &&& methods_read(parts(list, Rule::Method, list.len()), t.methods@)
}

/// Reads a compound task.
pub fn parse_compound(pair: &Pair) -> (r: HtnResult<CompoundDef>)
    requires
        compound_shaped(*pair),
    ensures
        match r {
            Ok(t) => compound_problem(*pair) is None && compound_read(*pair, t),
            Err(e) => compound_problem(*pair) matches Some(problem) && reports(e, problem),
        },
{
    let name = intern(unquote(pair.inner[0].text.as_str()));
    let mut methods: Vec<MethodDef> = Vec::new();
    let n: usize = pair.inner.len() - 1;
    let ghost list = pair.inner@.skip(1);
    for k in 0..n
        invariant
            n == pair.inner@.len() - 1,
            list == pair.inner@.skip(1),
            compound_shaped(*pair),
            compound_problem(*pair) == methods_problem(list, k as nat),
            methods_read(parts(list, Rule::Method, k as nat), methods@),
    {
        let part = &pair.inner[k + 1];
        assert(*part == list[k as int]);
        assert(*part == pair.inner@[k + 1]);
        if part.rule == Rule::Method {
            match parse_method(part) {
                Ok(m) => {
                    methods.push(m);
                },
                Err(e) => {
                    return Err(e);
                },
            }
        }
    }
    Ok(CompoundDef { name, methods })
}

/// What is read of a goal task.
pub open spec fn goal_reads() -> Reads {
    Reads { preconditions: false, effects: true, expected: false }
}

/// What is wrong with a goal task.
pub open spec fn goal_problem(p: Pair) -> Option<Problem> {
    statements_problem(p.inner@.skip(1), 0, goal_reads())
}

/// Whether a goal task is what a piece says.
pub open spec fn goal_read(p: Pair, t: GoalDef) -> bool {
    let list = p.inner@.skip(1);
    &&& text_of(t.name) == unquoted(p.inner@[0].text@)
    &&& effects_read(
        nested_parts(list, Rule::EffectsStatement, Rule::Effect, list.len()),
        t.effects@,
    )
}

/// Reads a goal task.
pub fn parse_goal(pair: &Pair) -> (r: HtnResult<GoalDef>)
    requires
        task_shaped(*pair),
    ensures
        match r {
            Ok(t) => goal_problem(*pair) is None && goal_read(*pair, t),
            Err(e) => goal_problem(*pair) matches Some(problem) && reports(e, problem),
        },
{
    let name = intern(unquote(pair.inner[0].text.as_str()));
    let mut effects: Vec<Effect> = Vec::new();
    let n: usize = pair.inner.len() - 1;
    let ghost list = pair.inner@.skip(1);
    for k in 0..n
        invariant
            n == pair.inner@.len() - 1,
            list == pair.inner@.skip(1),
            task_shaped(*pair),
            goal_problem(*pair) == statements_problem(list, k as nat, goal_reads()),
            effects_read(
                nested_parts(list, Rule::EffectsStatement, Rule::Effect, k as nat),
                effects@,
            ),
    {
        let stmt = &pair.inner[k + 1];
        assert(*stmt == list[k as int]);
        assert(*stmt == pair.inner@[k + 1]);
        if stmt.rule == Rule::EffectsStatement {
            match parse_effects(stmt) {
                Ok(mut more) => {
                    proof {
                        lemma_effects_join(
                            nested_parts(list, Rule::EffectsStatement, Rule::Effect, k as nat),
                            parts(stmt.inner@, Rule::Effect, stmt.inner@.len()),
                            effects@,
                            more@,
                        );
                    }
                    effects.append(&mut more);
                },
                Err(e) => {
                    return Err(e);
                },
            }
        }
    }
    Ok(GoalDef { name, effects })
}

/// Whether a schema declaration has its parts.
pub open spec fn schema_shaped(p: Pair) -> bool {
    &&& p.inner@.len() >= 1
    &&& p.inner@[0].rule is SchemaVersionStatement ==> p.inner@[0].inner@.len() >= 1
}

/// Reads a schema declaration.
pub fn parse_schema(pair: &Pair) -> (r: HtnResult<String>)
    requires
        schema_shaped(*pair),
    ensures
        if pair.inner@[0].rule is SchemaVersionStatement {
            r matches Ok(version) && version@ == pair.inner@[0].inner@[0].text@
        } else {
            r matches Err(HtnError::Schema { details }) && details@ == pair.inner@[0].text@
        },
{
    let version = &pair.inner[0];
    if version.rule == Rule::SchemaVersionStatement {
        Ok(version.inner[0].text.as_str().to_owned())
    } else {
        Err(HtnError::schema(version.text.as_str().to_owned()))
    }
}

/// Whether a declaration of a domain file has its parts.
pub open spec fn declaration_shaped(p: Pair) -> bool {
    match p.rule {
        Rule::Schema => schema_shaped(p),
        Rule::PrimitiveTask => primitive_shaped(p),
        Rule::CompoundTask => compound_shaped(p),
        Rule::GoalTask => task_shaped(p),
        _ => true,
    }
}

/// What is wrong with a declaration of a domain file.
pub enum Failure {
    /// A condition or effect.
    Part(Problem),
    /// The schema declaration, with what stands in its place.
    Schema(Seq<char>),
}

/// Whether an error reports a failure.
pub open spec fn reports_failure(error: HtnError, failure: Failure) -> bool {
    match failure {
        Failure::Part(problem) => reports(error, problem),
        Failure::Schema(text) => error matches HtnError::Schema { details } && details@ == text,
    }
}

/// What is wrong with a declaration of a domain file.
pub open spec fn declaration_failure(p: Pair) -> Option<Failure> {
    match p.rule {
        Rule::Schema => if p.inner@[0].rule is SchemaVersionStatement {
            None
        } else {
            Some(Failure::Schema(p.inner@[0].text@))
        },
        Rule::PrimitiveTask => match primitive_problem(p) {
            Some(problem) => Some(Failure::Part(problem)),
            None => None,
        },
        Rule::CompoundTask => match compound_problem(p) {
            Some(problem) => Some(Failure::Part(problem)),
            None => None,
        },
        Rule::GoalTask => match goal_problem(p) {
            Some(problem) => Some(Failure::Part(problem)),
            None => None,
        },
        _ => None,
    }
}

/// The first failure of the declarations of a list, from position `k` on.
pub open spec fn declarations_failure(list: Seq<Pair>, k: nat) -> Option<Failure>
    decreases list.len() - k,
{
    if k >= list.len() {
        None
    } else if declaration_failure(list[k as int]) is Some {
        declaration_failure(list[k as int])
    } else {
        declarations_failure(list, k + 1)
    }
}

/// Whether a piece declares a task.
pub open spec fn declares_task(p: Pair) -> bool {
    p.rule is PrimitiveTask || p.rule is CompoundTask || p.rule is GoalTask
}

/// The task declarations among the first `n` of a list, in order.
pub open spec fn task_declarations(list: Seq<Pair>, n: nat) -> Seq<Pair>
    decreases n,
{
    if n == 0 {
        Seq::empty()
    } else if declares_task(list[n - 1]) {
        task_declarations(list, (n - 1) as nat).push(list[n - 1])
    } else {
        task_declarations(list, (n - 1) as nat)
    }
}

/// Whether a task is what a piece says.
pub open spec fn task_read(p: Pair, t: TaskDef) -> bool {
    match t {
        TaskDef::Primitive(t) => p.rule is PrimitiveTask && primitive_read(p, t),
        TaskDef::Compound(t) => p.rule is CompoundTask && compound_read(p, t),
        TaskDef::Goal(t) => p.rule is GoalTask && goal_read(p, t),
    }
}

/// The schema version that the last schema declaration among the first `n` of a
/// list gives; without one, `0.0.0`.
pub open spec fn schema_version(list: Seq<Pair>, n: nat) -> Seq<char>
    decreases n,
{
    if n == 0 {
        "0.0.0"@
    } else if list[n - 1].rule is Schema {
        list[n - 1].inner@[0].inner@[0].text@
    } else {
        schema_version(list, (n - 1) as nat)
    }
}

/// Whether tasks are what pieces say, one for one.
pub open spec fn tasks_read(list: Seq<Pair>, tasks: Seq<TaskDef>) -> bool {
    &&& list.len() == tasks.len()
    &&& forall|i: int| 0 <= i < list.len() ==> task_read(#[trigger] list[i], tasks[i])
}

/// Reads a domain from the parse tree of its file. Task declaration order
/// matters: the first compound task is the default root for forward planning.
pub fn parse_htn(root: &Pair) -> (r: HtnResult<DomainDef>)
    requires
        forall|i: int| 0 <= i < root.inner@.len() ==> declaration_shaped(#[trigger] root.inner@[i]),
    ensures
        match r {
            Ok(domain) => {
                &&& declarations_failure(root.inner@, 0) is None
                &&& domain.schema@ == schema_version(root.inner@, root.inner@.len())
                &&& tasks_read(
                    task_declarations(root.inner@, root.inner@.len()),
                    domain.tasks@,
                )
            },
            Err(e) => declarations_failure(root.inner@, 0) matches Some(failure)
                && reports_failure(e, failure),
        },
{
    let mut schema: String = "0.0.0".to_owned();
    let mut tasks: Vec<TaskDef> = Vec::new();
    for k in 0..root.inner.len()
        invariant
            forall|i: int|
                0 <= i < root.inner@.len() ==> declaration_shaped(#[trigger] root.inner@[i]),
            declarations_failure(root.inner@, 0) == declarations_failure(root.inner@, k as nat),
            schema@ == schema_version(root.inner@, k as nat),
            tasks_read(task_declarations(root.inner@, k as nat), tasks@),
    {
        let pair = &root.inner[k];
        assert(*pair == root.inner@[k as int]);
        assert(declaration_shaped(*pair));
        match pair.rule {
            Rule::Schema => {
                match parse_schema(pair) {
                    Ok(version) => {
                        schema = version;
                    },
                    Err(e) => {
                        return Err(e);
                    },
                }
            },
            Rule::PrimitiveTask => {
                match parse_primitive(pair) {
                    Ok(t) => {
                        tasks.push(TaskDef::Primitive(t));
                    },
                    Err(e) => {
                        return Err(e);
                    },
                }
            },
            Rule::CompoundTask => {
                match parse_compound(pair) {
                    Ok(t) => {
                        tasks.push(TaskDef::Compound(t));
                    },
                    Err(e) => {
                        return Err(e);
                    },
                }
            },
            Rule::GoalTask => {
                match parse_goal(pair) {
                    Ok(t) => {
                        tasks.push(TaskDef::Goal(t));
                    },
                    Err(e) => {
                        return Err(e);
                    },
                }
            },
            _ => {},
        }
    }
    Ok(DomainDef { schema, tasks })
}

proof fn lemma_digit(d: nat)
    requires
        d < 10,
    ensures
        digit_text(d).len() == 1,
        digit_value(digit_text(d)[0]) == Some(d as int),
{
    reveal_strlit("0");
    reveal_strlit("1");
    reveal_strlit("2");
    reveal_strlit("3");
    reveal_strlit("4");
    reveal_strlit("5");
    reveal_strlit("6");
    reveal_strlit("7");
    reveal_strlit("8");
    reveal_strlit("9");
}

/// Whether a piece has the parts of an effect.
fn has_effect_shape(p: &Pair) -> (b: bool)
    ensures
        b == effect_shaped(*p),
{
    if p.inner.len() < 1 {
        return false;
    }
    let assign = &p.inner[0];
    if assign.inner.len() < 2 {
        return false;
    }
    if assign.rule == Rule::SetEffectDecLiteral && assign.inner[1].rule == Rule::IntValue {
        match read_int(assign.inner[1].text.as_str()) {
            Some(n) => n != i32::MIN,
            None => true,
        }
    } else {
        true
    }
}

/// Whether the conditions and effects inside a statement have their parts.
fn has_statement_shape(p: &Pair) -> (b: bool)
    ensures
        b == statement_shaped(*p),
{
    for k in 0..p.inner.len()
        invariant
            forall|i: int|
                0 <= i < k ==> {
                    &&& (#[trigger] p.inner@[i]).rule is Condition ==> condition_shaped(p.inner@[i])
                    &&& p.inner@[i].rule is Effect ==> effect_shaped(p.inner@[i])
                },
    {
        let part = &p.inner[k];
        let fits: bool = match part.rule {
            Rule::Condition => part.inner.len() >= 3,
            Rule::Effect => has_effect_shape(part),
            _ => true,
        };
        if !fits {
            assert(*part == p.inner@[k as int]);
            return false;
        }
    }
    true
}

/// Whether a task has a name and its statements have their parts.
fn has_task_shape(p: &Pair) -> (b: bool)
    ensures
        b == task_shaped(*p),
{
    if p.inner.len() < 1 {
        return false;
    }
    for k in 0..p.inner.len()
        invariant
            p.inner@.len() >= 1,
            forall|i: int|
                0 <= i < k ==> {
                    &&& statement_shaped(#[trigger] p.inner@[i])
                    &&& p.inner@[i].rule is OperatorStatement ==> p.inner@[i].inner@.len() >= 1
                        && p.inner@[i].inner@[0].inner@.len() >= 1
                },
    {
        let part = &p.inner[k];
        let fits: bool = has_statement_shape(part) && (part.rule != Rule::OperatorStatement || (
        part.inner.len() >= 1 && part.inner[0].inner.len() >= 1));
        if !fits {
            assert(*part == p.inner@[k as int]);
            return false;
        }
    }
    true
}

/// Whether a primitive task has its parts, an operator among them.
fn has_primitive_shape(p: &Pair) -> (b: bool)
    ensures
        b == primitive_shaped(*p),
{
    if !has_task_shape(p) {
        return false;
    }
    let mut found: bool = false;
    for k in 1..p.inner.len()
        invariant
            p.inner@.len() >= 1,
            found == (last_operator(p.inner@.skip(1), (k - 1) as nat) is Some),
    {
        assert(p.inner@.skip(1)[k - 1] == p.inner@[k as int]);
        if p.inner[k].rule == Rule::OperatorStatement {
            found = true;
        }
    }
    found
}

/// Whether the statements of a method have their parts.
fn has_method_shape(p: &Pair) -> (b: bool)
    ensures
        b == method_shaped(*p),
{
    for k in 0..p.inner.len()
        invariant
            forall|i: int| 0 <= i < k ==> statement_shaped(#[trigger] p.inner@[i]),
    {
        if !has_statement_shape(&p.inner[k]) {
            assert(!statement_shaped(p.inner@[k as int]));
            return false;
        }
    }
    true
}

/// Whether a compound task has a name and its methods have their parts.
fn has_compound_shape(p: &Pair) -> (b: bool)
    ensures
        b == compound_shaped(*p),
{
    if p.inner.len() < 1 {
        return false;
    }
    for k in 0..p.inner.len()
        invariant
            p.inner@.len() >= 1,
            forall|i: int|
                0 <= i < k ==> ((#[trigger] p.inner@[i]).rule is Method ==> method_shaped(
                    p.inner@[i],
                )),
    {
        if p.inner[k].rule == Rule::Method && !has_method_shape(&p.inner[k]) {
            assert(!method_shaped(p.inner@[k as int]));
            return false;
        }
    }
    true
}

/// Whether every declaration of a domain file has its parts, so that
/// [`parse_htn`] can read it.
pub fn has_shape(root: &Pair) -> (b: bool)
    ensures
        b == forall|i: int|
            0 <= i < root.inner@.len() ==> declaration_shaped(#[trigger] root.inner@[i]),
{
    for k in 0..root.inner.len()
        invariant
            forall|i: int| 0 <= i < k ==> declaration_shaped(#[trigger] root.inner@[i]),
    {
        let pair = &root.inner[k];
        let fits: bool = match pair.rule {
            Rule::Schema => pair.inner.len() >= 1 && (pair.inner[0].rule
                != Rule::SchemaVersionStatement || pair.inner[0].inner.len() >= 1),
            Rule::PrimitiveTask => has_primitive_shape(pair),
            Rule::CompoundTask => has_compound_shape(pair),
            Rule::GoalTask => has_task_shape(pair),
            _ => true,
        };
        if !fits {
            assert(!declaration_shaped(root.inner@[k as int]));
            return false;
        }
    }
    true
}

proof fn lemma_digits_agree(a: Seq<char>, b: Seq<char>, shift: nat, k: nat)
    requires
        k <= a.len(),
        shift + k <= b.len(),
        forall|i: int| 0 <= i < k ==> a[i] == b[shift + i],
    ensures
        digits_value(b, shift, shift + k) == digits_value(a, 0, k),
    decreases k,
{
    if k > 0 {
        lemma_digits_agree(a, b, shift, (k - 1) as nat);
        assert(b[shift + (k - 1)] == a[k - 1]);
    }
}

proof fn lemma_decimal_read(n: nat)
    ensures
        decimal_text(n).len() > 0,
        digit_value(decimal_text(n)[0]) is Some,
        digits_value(decimal_text(n), 0, decimal_text(n).len()) == Some(n),
    decreases n,
{
    let text = decimal_text(n);
    if n < 10 {
        lemma_digit(n);
        reveal_with_fuel(digits_value, 2);
    } else {
        lemma_decimal_read(n / 10);
        lemma_digit(n % 10);
        let front = decimal_text(n / 10);
        let k = front.len();
        assert(text.len() == k + 1);
        assert(text[k as int] == digit_text(n % 10)[0]);
        assert(text[0] == front[0]);
        lemma_digits_agree(front, text, 0, k);
        assert(digits_value(text, 0, k) == Some(n / 10));
        assert(10 * (n / 10) + n % 10 == n);
    }
}

/// An integer is read back from how it is written.
pub proof fn integers_read_back(n: i32)
    ensures
        int_of(signed_text(n as int)) == Some(n),
{
    let text = signed_text(n as int);
    if n < 0 {
        let m = (-(n as int)) as nat;
        lemma_decimal_read(m);
        reveal_strlit("-");
        let digits = decimal_text(m);
        assert(text[0] == '-');
        assert(text.len() == digits.len() + 1);
        lemma_digits_agree(digits, text, 1, digits.len());
    } else {
        lemma_decimal_read(n as nat);
    }
}

/// Truth values are read back from how they are written, and nothing else is read
/// as one.
pub proof fn truth_values_read_back(s: Seq<char>, b: bool)
    ensures
        bool_of(bool_text(b)) == Some(b),
        bool_of(s) == Some(b) ==> s == bool_text(b),
{
    reveal_strlit("true");
    reveal_strlit("false");
    assert("true"@.len() != "false"@.len());
}

proof fn lemma_digits_all(s: Seq<char>, from: nat, k: nat)
    ensures
        digits_value(s, from, k) is Some <==> forall|i: int|
            from <= i < k ==> '0' <= #[trigger] s[i] && s[i] <= '9',
    decreases k,
{
    if k > from {
        lemma_digits_all(s, from, (k - 1) as nat);
    }
}

/// Whether a text holds a `::` at position `i`.
pub open spec fn separates(s: Seq<char>, i: int) -> bool {
    0 <= i && i + 1 < s.len() && s[i] == ':' && s[i + 1] == ':'
}

/// Integers are read digit by digit: a digit behind a number makes ten times as
/// much and the digit of it, a minus sign in front turns the number round, and a
/// plus sign changes nothing. A text with anything else in it is no integer, and
/// neither is one without digits.
pub proof fn integers_are_read_by_digits(s: Seq<char>, c: char)
    requires
        s.len() > 0,
        '0' <= s[0] && s[0] <= '9',
    ensures
        number_of(s) is Some <==> forall|i: int|
            0 <= i < s.len() ==> '0' <= #[trigger] s[i] && s[i] <= '9',
        number_of(seq!['-'] + s) == (match number_of(s) {
            Some(n) => Some(-n),
            None => None,
        }),
        number_of(seq!['+'] + s) == number_of(s),
        number_of(s) is Some && '0' <= c && c <= '9' ==> number_of(s.push(c)) == Some(
            10 * number_of(s)->Some_0 + (c as int - '0' as int),
        ),
        !('0' <= c && c <= '9') ==> number_of(s.push(c)) is None,
        '0' <= c && c <= '9' ==> number_of(seq![c]) == Some(c as int - '0' as int),
        !('0' <= c && c <= '9') ==> number_of(seq![c]) is None,
        number_of(Seq::<char>::empty()) is None,
        int_of(s) matches Some(n) ==> number_of(s) == Some(n as int),
{
    lemma_digits_all(s, 0, s.len());
    let minus = seq!['-'] + s;
    let plus = seq!['+'] + s;
    lemma_digits_agree(s, minus, 1, s.len());
    lemma_digits_agree(s, plus, 1, s.len());
    assert(minus[0] == '-' && plus[0] == '+');
    let longer = s.push(c);
    lemma_digits_agree(s, longer, 0, s.len());
    assert(longer[0] == s[0]);
    assert(longer[s.len() as int] == c);
    let one = seq![c];
    assert(one[0] == c);
    reveal_with_fuel(digits_value, 2);
}

proof fn lemma_separator_from(s: Seq<char>, k: nat)
    ensures
        match separator_from(s, k) {
            Some(i) => k <= i && separates(s, i as int) && forall|j: int|
                k <= j < i ==> !(#[trigger] separates(s, j)),
            None => forall|j: int| k <= j ==> !(#[trigger] separates(s, j)),
        },
    decreases s.len() - k,
{
    if k + 1 < s.len() && !(s[k as int] == ':' && s[(k + 1) as int] == ':') {
        lemma_separator_from(s, k + 1);
        assert(!separates(s, k as int));
    } else if k + 1 < s.len() {
        assert(separates(s, k as int));
    }
}

/// An enum literal is a type and a variant with one `::` between them: what is
/// read is written back, and two names without a `::` in them are read back from
/// how they are written, where the first does not end in a colon.
pub proof fn enum_literals_read_back(s: Seq<char>, ty: Seq<char>, variant: Seq<char>)
    ensures
        enum_of(s) == Some((ty, variant)) ==> s == ty + "::"@ + variant && forall|i: int|
            !(#[trigger] separates(variant, i)),
        (forall|i: int| !(#[trigger] separates(ty, i))) && (forall|i: int|
            !(#[trigger] separates(variant, i))) && (ty.len() > 0 ==> ty.last() != ':')
            ==> enum_of(ty + "::"@ + variant) == Some((ty, variant)),
{
    reveal_strlit("::");
    let mark = "::"@;
    lemma_separator_from(s, 0);
    if enum_of(s) == Some((ty, variant)) {
        let i = separator_from(s, 0)->Some_0 as int;
        lemma_separator_from(s, (i + 2) as nat);
        assert(s =~= ty + mark + variant);
        assert forall|j: int| !(#[trigger] separates(variant, j)) by {
            if separates(variant, j) {
                assert(separates(s, i + 2 + j));
            }
        }
    }
    if (forall|i: int| !(#[trigger] separates(ty, i))) && (forall|i: int|
        !(#[trigger] separates(variant, i))) && (ty.len() > 0 ==> ty.last() != ':') {
        let whole = ty + mark + variant;
        let n = ty.len() as int;
        lemma_separator_from(whole, 0);
        assert(separates(whole, n));
        let i = separator_from(whole, 0)->Some_0 as int;
        assert(i == n) by {
            if i < n - 1 {
                assert(separates(ty, i));
            } else if i == n - 1 {
                assert(whole[n - 1] == ty.last());
            }
        }
        lemma_separator_from(whole, (n + 2) as nat);
        if let Some(j) = separator_from(whole, (n + 2) as nat) {
            assert(separates(variant, j - n - 2));
        }
        assert(whole.take(n) =~= ty);
        assert(whole.skip(n + 2) =~= variant);
    }
}

/// Turning a float's sign round twice changes nothing, and turns its place in the
/// order round; what is written for it follows.
pub proof fn negation_turns_floats_round(bits: u32, text: Seq<char>)
    ensures
        negated_bits(negated_bits(bits)) == bits,
        negated_bits(bits) != bits,
        float_rank(negated_bits(bits)) == (match float_rank(bits) {
            Some(r) => Some(-r),
            None => None,
        }),
        text != "NaN"@ && negated_text(text) != "NaN"@ && !(text.len() > 1 && text[0] == '-'
            && text[1] == '-') ==> negated_text(negated_text(text)) == text,
        text.len() > 0 && text[0] != '-' && text != "NaN"@ ==> negated_text(text) == seq!['-']
            + text,
{
    reveal_strlit("-");
    assert("-"@ =~= seq!['-']);
    if text.len() > 0 && text[0] == '-' {
        assert(seq!['-'] + text.skip(1) =~= text);
    } else {
        let longer = "-"@ + text;
        assert(longer[0] == '-');
        assert(longer.skip(1) =~= text);
    }
}

/// The pieces with a rule keep their order: each stands behind those before it, and
/// nothing else is among them. The same holds of the task declarations, and of the
/// pieces inside statements, which follow the order of the statements.
pub proof fn pieces_keep_their_order(list: Seq<Pair>, outer: Rule, rule: Rule, i: int, n: nat)
    requires
        0 <= i < n <= list.len(),
    ensures
        parts(list, rule, 0).len() == 0,
        parts(list, rule, i as nat).is_prefix_of(parts(list, rule, n)),
        list[i].rule == rule ==> parts(list, rule, (i + 1) as nat) == parts(
            list,
            rule,
            i as nat,
        ).push(list[i]),
        list[i].rule != rule ==> parts(list, rule, (i + 1) as nat) == parts(list, rule, i as nat),
        task_declarations(list, 0).len() == 0,
        task_declarations(list, i as nat).is_prefix_of(task_declarations(list, n)),
        (list[i].rule is PrimitiveTask || list[i].rule is CompoundTask || list[i].rule is GoalTask)
            ==> task_declarations(list, (i + 1) as nat) == task_declarations(list, i as nat).push(
            list[i],
        ),
        !(list[i].rule is PrimitiveTask || list[i].rule is CompoundTask || list[i].rule is GoalTask)
            ==> task_declarations(list, (i + 1) as nat) == task_declarations(list, i as nat),
        nested_parts(list, outer, rule, 0).len() == 0,
        nested_parts(list, outer, rule, i as nat).is_prefix_of(nested_parts(list, outer, rule, n)),
        list[i].rule == outer ==> nested_parts(list, outer, rule, (i + 1) as nat) == nested_parts(
            list,
            outer,
            rule,
            i as nat,
        ) + parts(list[i].inner@, rule, list[i].inner@.len()),
        list[i].rule != outer ==> nested_parts(list, outer, rule, (i + 1) as nat) == nested_parts(
            list,
            outer,
            rule,
            i as nat,
        ),
    decreases n,
{
    if i < n - 1 {
        pieces_keep_their_order(list, outer, rule, i, (n - 1) as nat);
    }
}

/// The first thing that is wrong is reported, and nothing is reported only where
/// nothing is wrong: of conditions, of effects, of statements, of methods, and of
/// declarations.
pub proof fn the_first_problem_is_reported(list: Seq<Pair>, k: nat, reads: Reads)
    ensures
        conditions_problem(list, k) is None <==> forall|i: int|
            k <= i < list.len() && (#[trigger] list[i]).rule is Condition ==> condition_problem(
                list[i],
            ) is None,
        effects_problem(list, k) is None <==> forall|i: int|
            k <= i < list.len() && (#[trigger] list[i]).rule is Effect ==> effect_problem(
                list[i],
            ) is None,
        statements_problem(list, k, reads) is None <==> forall|i: int|
            k <= i < list.len() ==> statement_problem(#[trigger] list[i], reads) is None,
        methods_problem(list, k) is None <==> forall|i: int|
            k <= i < list.len() && (#[trigger] list[i]).rule is Method ==> method_problem(
                list[i],
            ) is None,
        declarations_failure(list, k) is None <==> forall|i: int|
            k <= i < list.len() ==> declaration_failure(#[trigger] list[i]) is None,
        conditions_problem(list, k) is Some ==> exists|i: int|
            k <= i < list.len() && conditions_problem(list, k) == condition_problem(
                #[trigger] list[i],
            ) && list[i].rule is Condition && conditions_problem(list.take(i), k) is None,
        effects_problem(list, k) is Some ==> exists|i: int|
            k <= i < list.len() && effects_problem(list, k) == effect_problem(#[trigger] list[i])
                && list[i].rule is Effect && effects_problem(list.take(i), k) is None,
        declarations_failure(list, k) is Some ==> exists|i: int|
            k <= i < list.len() && declarations_failure(list, k) == declaration_failure(
                #[trigger] list[i],
            ) && declarations_failure(list.take(i), k) is None,
    decreases list.len() - k,
{
    if k < list.len() {
        the_first_problem_is_reported(list, k + 1, reads);
        let here = list[k as int];
        if here.rule is Condition && condition_problem(here) is Some {
            assert(conditions_problem(list.take(k as int), k) is None);
        } else if conditions_problem(list, k) is Some {
            let i = choose|i: int|
                k + 1 <= i < list.len() && conditions_problem(list, k + 1) == condition_problem(
                    #[trigger] list[i],
                ) && list[i].rule is Condition && conditions_problem(list.take(i), k + 1) is None;
            assert(list.take(i)[k as int] == here);
            assert(conditions_problem(list.take(i), k) is None);
            assert(conditions_problem(list, k) == condition_problem(list[i]));
        }
        if here.rule is Effect && effect_problem(here) is Some {
            assert(effects_problem(list.take(k as int), k) is None);
        } else if effects_problem(list, k) is Some {
            let i = choose|i: int|
                k + 1 <= i < list.len() && effects_problem(list, k + 1) == effect_problem(
                    #[trigger] list[i],
                ) && list[i].rule is Effect && effects_problem(list.take(i), k + 1) is None;
            assert(list.take(i)[k as int] == here);
            assert(effects_problem(list.take(i), k) is None);
            assert(effects_problem(list, k) == effect_problem(list[i]));
        }
        if declaration_failure(here) is Some {
            assert(declarations_failure(list.take(k as int), k) is None);
        } else if declarations_failure(list, k) is Some {
            let i = choose|i: int|
                k + 1 <= i < list.len() && declarations_failure(list, k + 1) == declaration_failure(
                    #[trigger] list[i],
                ) && declarations_failure(list.take(i), k + 1) is None;
            assert(list.take(i)[k as int] == here);
            assert(declarations_failure(list.take(i), k) is None);
            assert(declarations_failure(list, k) == declaration_failure(list[i]));
        }
    }
}

/// Taking the quotation marks off leaves none at either end, and takes off nothing
/// else: putting a mark at an end changes nothing, and a text without marks at its
/// ends stays as it is.
pub proof fn quotation_marks_come_off(s: Seq<char>)
    ensures
        unquoted(s).len() > 0 ==> unquoted(s)[0] != '"' && unquoted(s).last() != '"',
        unquoted(seq!['"'] + s) == unquoted(s),
        unquoted(s.push('"')) == unquoted(s),
        (s.len() > 0 && s[0] != '"' && s.last() != '"') ==> unquoted(s) == s,
    decreases s.len(),
{
    let front = seq!['"'] + s;
    assert(front[0] == '"');
    assert(front.skip(1) =~= s);
    let back = s.push('"');
    assert(back.last() == '"');
    assert(back.drop_last() =~= s);
    if s.len() > 0 && s[0] == '"' {
        quotation_marks_come_off(s.skip(1));
        assert(back.skip(1) =~= s.skip(1).push('"'));
        assert(back[0] == '"');
    } else if s.len() > 0 && s.last() == '"' {
        quotation_marks_come_off(s.drop_last());
        assert(back[0] == s[0]);
    } else if s.len() == 0 {
        assert(back[0] == '"');
        assert(back.skip(1) =~= s);
    } else {
        assert(back[0] == s[0]);
    }
}

/// How an operator of a condition is written.
pub open spec fn operator_text(op: Rule) -> Seq<char> {
    match op {
        Rule::OpEq => "=="@,
        Rule::OpNeq => "!="@,
        Rule::OpGt => ">"@,
        Rule::OpGte => ">="@,
        Rule::OpLt => "<"@,
        _ => "<="@,
    }
}

/// Whether a text stands for what a literal or name of a domain file stands for.
pub open spec fn stands_for(text: Seq<char>, value: Pair) -> bool {
    match value.rule {
        Rule::IntValue => int_of(text) == int_of(value.text@),
        Rule::FloatValue => value.float matches Some(f) && text == text_of(f.text),
        Rule::NoneValue => text == "None"@,
        _ => text == value.text@,
    }
}

/// A condition that was read is written as it stood in the file: its field, the
/// operator, and a text that stands for the value.
pub proof fn conditions_are_written_as_read(p: Pair, c: HtnCondition) -> (value: Seq<char>)
    requires
        condition_shaped(p),
        condition_problem(p) is None,
        condition_read(p, c),
    ensures
        c.syntax_spec() == p.inner@[0].text@ + " "@ + operator_text(p.inner@[1].rule) + " "@ + value,
        stands_for(value, p.inner@[2]),
{
    let v = p.inner@[2];
    match v.rule {
        Rule::IntValue => {
            let n = int_of(v.text@)->Some_0;
            integers_read_back(n);
            signed_text(n as int)
        },
        Rule::FloatValue => text_of(v.float->Some_0.text),
        Rule::BoolValue => {
            truth_values_read_back(v.text@, bool_of(v.text@)->Some_0);
            v.text@
        },
        Rule::EnumValue => {
            let (ty, variant) = enum_of(v.text@)->Some_0;
            enum_literals_read_back(v.text@, ty, variant);
            v.text@
        },
        Rule::NoneValue => "None"@,
        _ => v.text@,
    }
}

/// An effect that was read is written as it stood in the file: its field, how it
/// is assigned, and a text that stands for the value. What is subtracted is added
/// with the opposite sign, and another field is copied.
pub proof fn effects_are_written_as_read(p: Pair, e: Effect) -> (value: Seq<char>)
    requires
        effect_shaped(p),
        effect_problem(p) is None,
        effect_read(p, e),
    ensures
        ({
            let kind = p.inner@[0].rule;
            let name = p.inner@[0].inner@[0].text@;
            let v = p.inner@[0].inner@[1];
            let sign = if kind is SetEffectLiteral || v.rule is Identifier {
                " = "@
            } else {
                " += "@
            };
            &&& e.syntax_spec() == name + sign + value
            &&& !(kind is SetEffectDecLiteral) ==> stands_for(value, v)
            &&& kind is SetEffectDecLiteral && v.rule is IntValue ==> {
                let n = int_of(v.text@)->Some_0;
                int_of(value) == Some((-n) as i32)
            }
            &&& kind is SetEffectDecLiteral && v.rule is FloatValue ==> value == negated_text(
                text_of(v.float->Some_0.text),
            )
        }),
{
    let kind = p.inner@[0].rule;
    let v = p.inner@[0].inner@[1];
    match v.rule {
        Rule::IntValue => {
            let n = int_of(v.text@)->Some_0;
            let m = if kind is SetEffectDecLiteral {
                (-n) as i32
            } else {
                n
            };
            integers_read_back(m);
            signed_text(m as int)
        },
        Rule::FloatValue => if kind is SetEffectDecLiteral {
            negated_text(text_of(v.float->Some_0.text))
        } else {
            text_of(v.float->Some_0.text)
        },
        Rule::BoolValue => {
            truth_values_read_back(v.text@, bool_of(v.text@)->Some_0);
            v.text@
        },
        Rule::EnumValue => {
            let (ty, variant) = enum_of(v.text@)->Some_0;
            enum_literals_read_back(v.text@, ty, variant);
            v.text@
        },
        Rule::NoneValue => "None"@,
        _ => v.text@,
    }
}

/// The default root is the first compound task.
pub proof fn the_first_compound_task_is_the_root(tasks: Seq<TaskDef>, k: nat)
    ensures
        match compound_from(tasks, k) {
            Some(i) => k <= i < tasks.len() && tasks[i as int] is Compound && forall|j: int|
                k <= j < i ==> !((#[trigger] tasks[j]) is Compound),
            None => forall|j: int| k <= j < tasks.len() ==> !((#[trigger] tasks[j]) is Compound),
        },
    decreases tasks.len() - k,
{
    if k < tasks.len() && !(tasks[k as int] is Compound) {
        the_first_compound_task_is_the_root(tasks, k + 1);
    }
}

/// The operator of a task is that of its last operator statement; there is none
/// where no statement names one.
pub proof fn the_last_operator_counts(list: Seq<Pair>, i: int, n: nat)
    requires
        -1 <= i < n <= list.len(),
        i >= 0 ==> list[i].rule is OperatorStatement,
        forall|j: int| i < j < n ==> !((#[trigger] list[j]).rule is OperatorStatement),
    ensures
        i >= 0 ==> last_operator(list, n) == Some(list[i].inner@[0]),
        i < 0 ==> last_operator(list, n) is None,
    decreases n,
{
    if i < n - 1 {
        assert(!(list[n - 1].rule is OperatorStatement));
        if n > 1 {
            the_last_operator_counts(list, i, (n - 1) as nat);
        } else {
            assert(last_operator(list, 0) is None);
        }
    }
}

/// The schema version of a domain is that of its last schema declaration, and
/// `0.0.0` where there is none.
pub proof fn the_last_schema_counts(list: Seq<Pair>, i: int, n: nat)
    requires
        -1 <= i < n <= list.len(),
        i >= 0 ==> list[i].rule is Schema,
        forall|j: int| i < j < n ==> !((#[trigger] list[j]).rule is Schema),
    ensures
        i >= 0 ==> schema_version(list, n) == list[i].inner@[0].inner@[0].text@,
        i < 0 ==> schema_version(list, n) == "0.0.0"@,
    decreases n,
{
    if i < n - 1 {
        assert(!(list[n - 1].rule is Schema));
        if n > 1 {
            the_last_schema_counts(list, i, (n - 1) as nat);
        } else {
            assert(schema_version(list, 0) == "0.0.0"@);
        }
    }
}

} // verus!
