//! The messages of the UPF planning service, as plain data.
use vstd::prelude::*;

verus! {

#[derive(Debug, Clone, Default)]
pub struct Payload {
    pub type_: String,
    pub value: String,
}

#[derive(Debug, Default)]
pub struct Expression {
    pub type_: String,
    pub args: Vec<Expression>,
    pub payload: Option<Payload>,
}

#[derive(Debug, Default)]
pub struct Assignment {
    pub x: Option<Expression>,
    pub v: Option<Expression>,
}

#[derive(Debug, Default)]
pub struct Fluent {
    pub name: String,
    pub value_type: String,
    pub signature: Vec<String>,
}

#[derive(Debug, Default)]
pub struct Object {
    pub name: String,
    pub type_: String,
}

#[derive(Debug, Default)]
pub struct Action {
    pub name: String,
    pub parameters: Vec<String>,
    pub parameter_types: Vec<String>,
    pub preconditions: Vec<Expression>,
    pub effects: Vec<Assignment>,
}

#[derive(Debug, Default)]
pub struct ActionInstance {
    pub action: Option<Action>,
    pub parameters: Vec<Expression>,
}

#[derive(Debug, Default)]
pub struct SequentialPlan {
    pub actions: Vec<ActionInstance>,
}

#[derive(Debug, Default)]
pub struct Answer {
    pub status: i32,
    pub plan: Option<SequentialPlan>,
}

#[derive(Debug, Default)]
pub struct Problem {
    pub name: String,
    pub fluents: Vec<Fluent>,
    pub objects: Vec<Object>,
    pub actions: Vec<Action>,
    pub initial_state: Vec<Assignment>,
    pub goals: Vec<Expression>,
}

} // verus!
