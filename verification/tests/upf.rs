use aries_planning::grpc::solver::solve;
use aries_planning::upf::messages::{
    Action, ActionInstance, Answer, Assignment, Expression, Fluent, Object, Payload, Problem, SequentialPlan,
};
use aries_planning::upf::serialize::{Answer_, Problem_};

fn atom(value: &str) -> Expression {
    Expression {
        type_: "symbol".to_string(),
        args: vec![],
        payload: Some(Payload { type_: "str".to_string(), value: value.to_string() }),
    }
}

fn at(x: &str) -> Expression {
    Expression { type_: "fluent".to_string(), args: vec![atom("at"), atom(x)], payload: None }
}

fn problem() -> Problem {
    Problem {
        name: "move".to_string(),
        fluents: vec![Fluent {
            name: "at".to_string(),
            value_type: "bool".to_string(),
            signature: vec!["loc".to_string()],
        }],
        objects: vec![Object { name: "l1".to_string(), type_: "loc".to_string() }],
        actions: vec![Action {
            name: "go".to_string(),
            parameters: vec!["to".to_string()],
            parameter_types: vec!["loc".to_string()],
            preconditions: vec![],
            effects: vec![Assignment { x: Some(at("l1")), v: Some(atom("true")) }],
        }],
        initial_state: vec![Assignment { x: Some(at("l0")), v: None }],
        goals: vec![at("l1")],
    }
}

#[test]
fn problem_messages() {
    let p = Problem_::parse_problem(problem());
    assert_eq!(p.name, "move");
    assert_eq!(p.fluents.len(), 1);
    assert_eq!(p.fluents[0].name, "at");
    assert_eq!(p.fluents[0].value, "bool");
    assert_eq!(p.fluents[0].signature, vec!["loc".to_string()]);
    // the type of an object is not carried over
    assert_eq!((p.objects[0].name.as_str(), p.objects[0].type_.as_str()), ("l1", ""));
    assert_eq!(p.actions[0].name, "go");
    assert_eq!(p.actions[0].parameters, vec!["to".to_string()]);
    let eff = &p.actions[0].effects[0];
    let x = eff.x.as_ref().unwrap();
    // nor are the types of expressions and payloads
    assert_eq!(x.type_, "");
    assert_eq!(x.args[1].payload.as_ref().unwrap().type_, "");
    assert_eq!(x.args.len(), 2);
    assert_eq!(x.args[1].payload.as_ref().unwrap().value, "l1");
    assert_eq!(eff.v.as_ref().unwrap().payload.as_ref().unwrap().value, "true");
    assert!(p.initial_state[0].v.is_none());
    assert_eq!(p.goals.len(), 1);
    assert_eq!(p.goals[0].args[0].payload.as_ref().unwrap().value, "at");
}

#[test]
fn answer_messages() {
    assert!(Answer_::parse_answer(None).is_none());
    let a = Answer_::parse_answer(Some(Answer { status: 2, plan: None })).unwrap();
    assert_eq!(a.status, 2);
    assert!(a.plan.is_none());
    let plan = SequentialPlan {
        actions: vec![ActionInstance { action: Some(problem().actions.remove(0)), parameters: vec![atom("l1")] }],
    };
    let a = Answer_::parse_answer(Some(Answer { status: 1, plan: Some(plan) })).unwrap();
    let p = a.plan.unwrap();
    assert_eq!(p.actions.len(), 1);
    assert_eq!(p.actions[0].action.as_ref().unwrap().name, "go");
    assert_eq!(p.actions[0].parameters[0].payload.as_ref().unwrap().value, "l1");
}

#[test]
fn solver_answers_without_a_plan() {
    let answer = solve(Problem_::parse_problem(problem())).unwrap();
    assert_eq!(answer.status, 0);
    assert!(answer.plan.is_none());
}
