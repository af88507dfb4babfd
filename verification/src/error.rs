//! Errors produced by building, verifying, or planning an HTN domain.

use crate::text::{join2, join3};
use vstd::prelude::*;
use vstd::string::{StrSliceExecFns, StringExecFns};

verus! {

/// Errors produced by building, verifying, or planning an HTN domain.
#[derive(Debug, PartialEq, Eq)]
pub enum HtnError {
    /// The domain builder was given an invalid specification. Every authoring
    /// bug that one `build()` call can collect is reported together.
    Builder {
        /// Each collected authoring error, in collection order.
        errors: Vec<String>,
    },
    /// A task or goal that was never recorded in the domain.
    UnregisteredTask {
        /// The name of the unregistered function.
        name: String,
    },
    /// The search space was exhausted with no complete decomposition.
    NoPlan,
    /// A condition does not fit the schema of the state it is checked against.
    Condition {
        /// The condition as it is written in a domain file.
        syntax: String,
        /// What does not fit.
        details: String,
    },
    /// An effect does not fit the schema of the state it is checked against.
    Effect {
        /// The effect as it is written in a domain file.
        syntax: String,
        /// What does not fit.
        details: String,
    },
    /// An operator that cannot be constructed or run.
    Operator {
        /// The operator's name.
        name: String,
        /// The operator's parameters.
        params: Vec<String>,
        /// What is missing.
        details: String,
    },
    /// The schema declaration of a domain file is malformed.
    Schema {
        /// The text that stands in its place.
        details: String,
    },
    /// A domain file cannot be read.
    Parser {
        /// What is wrong with it.
        details: String,
    },
}

/// Convenience alias for results that fail with [`HtnError`].
pub type HtnResult<T> = Result<T, HtnError>;

impl HtnError {
    /// Whether this is a builder error that carries exactly `entry`.
    pub open spec fn is_builder(self, entry: Seq<char>) -> bool {
        self matches HtnError::Builder { errors } && errors@.len() == 1 && errors@[0]@ == entry
    }

    /// A [`HtnError::Builder`] that carries a single error entry.
    pub fn builder(details: String) -> (error: HtnError)
        ensures
            error.is_builder(details@),
    {
        let mut errors: Vec<String> = Vec::new();
        errors.push(details);
        HtnError::Builder { errors }
    }

    /// A [`HtnError::Schema`] for the given text.
    pub fn schema(details: String) -> (error: HtnError)
        ensures
            error == (HtnError::Schema { details }),
    {
        HtnError::Schema { details }
    }

    /// A [`HtnError::Parser`] for the given message.
    pub fn parser(details: String) -> (error: HtnError)
        ensures
            error == (HtnError::Parser { details }),
    {
        HtnError::Parser { details }
    }

    /// What the error says.
    pub open spec fn message_spec(self) -> Seq<char> {
        match self {
            HtnError::Builder { errors } => "Invalid HTN domain: "@ + listed(
                Seq::new(errors@.len(), |i: int| errors@[i]@),
                "; "@,
                errors@.len(),
            ),
            HtnError::UnregisteredTask { name } => "Task function `"@ + name@
                + "` was never recorded in this domain"@,
            HtnError::NoPlan =>
                "No plan could be found: the search space was exhausted with no valid decomposition"@,
            HtnError::Condition { syntax, details } => "Invalid condition `"@ + syntax@ + "`: "@
                + details@,
            HtnError::Effect { syntax, details } => "Invalid effect `"@ + syntax@ + "`: "@
                + details@,
            HtnError::Operator { name, params, details } => "Invalid operator `"@ + name@ + "("@
                + listed(Seq::new(params@.len(), |i: int| params@[i]@), ", "@, params@.len())
                + ")`: "@ + details@,
            HtnError::Schema { details } => "Invalid schema declaration: "@ + details@,
            HtnError::Parser { details } => "Invalid domain file: "@ + details@,
        }
    }

    /// What the error says.
    pub fn message(&self) -> (text: String)
        ensures
            text@ == self.message_spec(),
    {
        match self {
            HtnError::Builder { errors } => {
                let list = join_all(errors, "; ");
                join2("Invalid HTN domain: ", list.as_str())
            },
            HtnError::UnregisteredTask { name } => join3(
                "Task function `",
                name.as_str(),
                "` was never recorded in this domain",
            ),
            HtnError::NoPlan =>
                "No plan could be found: the search space was exhausted with no valid decomposition".to_owned(),
            HtnError::Condition { syntax, details } => {
                let front = join3("Invalid condition `", syntax.as_str(), "`: ");
                join2(front.as_str(), details.as_str())
            },
            HtnError::Effect { syntax, details } => {
                let front = join3("Invalid effect `", syntax.as_str(), "`: ");
                join2(front.as_str(), details.as_str())
            },
            HtnError::Operator { name, params, details } => {
                let front = join3("Invalid operator `", name.as_str(), "(");
                let list = join_all(params, ", ");
                let head = join3(front.as_str(), list.as_str(), ")`: ");
                join2(head.as_str(), details.as_str())
            },
            HtnError::Schema { details } => join2(
                "Invalid schema declaration: ",
                details.as_str(),
            ),
            HtnError::Parser { details } => join2("Invalid domain file: ", details.as_str()),
        }
    }
}

/// The first `k` entries with a separator between each two.
pub open spec fn listed(entries: Seq<Seq<char>>, separator: Seq<char>, k: nat) -> Seq<char>
    decreases k,
{
    if k == 0 {
        Seq::empty()
    } else if k == 1 {
        entries[0]
    } else {
        listed(entries, separator, (k - 1) as nat) + separator + entries[k - 1]
    }
}

fn join_all(entries: &Vec<String>, separator: &str) -> (text: String)
    ensures
        text@ == listed(
            Seq::new(entries@.len(), |i: int| entries@[i]@),
            separator@,
            entries@.len(),
        ),
{
    let ghost texts = Seq::new(entries@.len(), |i: int| entries@[i]@);
    let mut text = String::new();
    assert(text@ =~= Seq::<char>::empty());
    for k in 0..entries.len()
        invariant
            texts == Seq::new(entries@.len(), |i: int| entries@[i]@),
            text@ == listed(texts, separator@, k as nat),
    {
        if k > 0 {
            text.append(separator);
        }
        text.append(entries[k].as_str());
        assert(texts[k as int] == entries@[k as int]@);
        assert(text@ =~= listed(texts, separator@, (k + 1) as nat));
    }
    text
}

} // verus!
