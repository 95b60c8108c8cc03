//! The JSON access-policy data model: the shapes a policy document takes
//! when it is read from its JSON form.  Reading the JSON itself and
//! rendering a policy into configuration text are left to callers; this
//! module owns the model those callers exchange.

use std::collections::HashMap;
use vstd::prelude::*;

pub mod json;

verus! {

/// The version a policy document declares.
pub enum PolicyVersion {
    V20121017,
}

/// Whether a statement allows or denies.
pub enum Effect {
    Allow,
    Deny,
}

/// One action name, or a list of them.
pub enum Action {
    Mono(String),
    Poly(Vec<String>),
}

/// The condition operators this model recognizes.
#[derive(PartialEq, Eq, Hash)]
pub enum ConditionOperator {
    NumericLessThanEquals,
    StringLike,
}

/// One string, or a list of strings.
pub enum OneOrManyString {
    Mono(String),
    Poly(Vec<String>),
}

/// The operands of one condition: condition variables to their values.
pub struct ConditionOperands(pub HashMap<String, OneOrManyString>);

/// One statement of a policy document.
pub struct PolicyStatement {
    pub sid: Option<String>,
    pub effect: Effect,
    pub action: Action,
    pub resource: OneOrManyString,
    pub condition: Option<HashMap<ConditionOperator, ConditionOperands>>,
}

/// One statement, or a list of them.
pub enum Statement {
    Mono(PolicyStatement),
    Poly(Vec<PolicyStatement>),
}

/// A whole policy document.
pub struct JsonPolicyDocument {
    pub version: PolicyVersion,
    pub statement: Statement,
}

} // verus!
