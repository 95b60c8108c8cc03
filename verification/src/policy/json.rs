//! The richer policy model used when converting a JSON policy document into
//! a configuration-language data resource: more versions, more operators,
//! principals, and a generic one-or-many container.

use std::collections::HashMap;
use vstd::prelude::*;

verus! {

/// The version a policy document declares.
pub enum PolicyVersion {
    V20081017,
    V20121017,
}

/// Whether a statement allows or denies.
#[derive(Clone)]
pub enum Effect {
    Allow,
    Deny,
}

/// The condition operators a statement may use.
#[derive(Clone, PartialEq, Eq, Hash)]
pub enum ConditionOperator {
    ArnEquals,
    ArnLike,
    ArnNotEquals,
    ArnNotLike,
    BinaryEquals,
    Bool,
    DateEquals,
    DateGreaterThan,
    DateGreaterThanEquals,
    DateLessThan,
    DateLessThanEquals,
    DateNotEquals,
    IfExists,
    IpAddress,
    NotIpAddress,
    Null,
    NumericEquals,
    NumericGreaterThan,
    NumericGreaterThanEquals,
    NumericLessThan,
    NumericLessThanEquals,
    NumericNotEquals,
    StringEquals,
    StringEqualsIgnoreCase,
    StringLike,
    StringLikeIfExists,
    StringNotEquals,
    StringNotEqualsIgnoreCase,
    StringNotLike,
}

/// One value, or a list of values.
#[derive(Clone)]
pub enum OneOrMany<T: Clone> {
    Mono(T),
    Poly(Vec<T>),
}

impl<T: Clone> OneOrMany<T> {
    /// The contained values as a list, a single value becoming a
    /// one-element list.
    pub fn into_vec(self) -> (r: Vec<T>)
        ensures
            r@ == (match self {
                OneOrMany::Mono(t) => seq![t],
                OneOrMany::Poly(v) => v@,
            }),
    {
        match self {
            OneOrMany::Mono(t) => {
                let ghost g = t;
                let mut v: Vec<T> = Vec::new();
                v.push(t);
                proof {
                    assert(v@ =~= seq![g]);
                }
                v
            },
            OneOrMany::Poly(v) => v,
        }
    }
}

/// The operands of one condition: condition variables to their values.
#[derive(Clone)]
pub struct ConditionOperands(pub HashMap<String, OneOrMany<String>>);

/// The kinds of principal a statement may name.
#[derive(Clone, PartialEq, Eq, Hash)]
pub enum Principal {
    AWS,
    CanonicalUser,
    Federated,
    Service,
}

/// One statement of a policy document.
#[derive(Clone)]
pub struct Statement {
    pub sid: Option<String>,
    pub effect: Effect,
    pub action: OneOrMany<String>,
    pub resource: Option<OneOrMany<String>>,
    pub condition: Option<HashMap<ConditionOperator, ConditionOperands>>,
    pub principal: Option<HashMap<Principal, OneOrMany<String>>>,
}

/// A whole policy document.
pub struct PolicyDocument {
    pub version: PolicyVersion,
    pub statement: OneOrMany<Statement>,
}

} // verus!
