use aries_planning::timelines::boxes::Segment;
use aries_planning::timelines::transitions::Fluent;
use aries_planning::timelines::groundings::{IntTerm, TaskId};
use aries_planning::timelines::lprelax::{encode_problem_lifted, ColTag, LpRelaxProblem, RowExpr, RowExprType};
use aries_planning::timelines::transitions::{CausalLink, Condition, Effect, StateVar, Supports, Transitions};

fn sv(fluent: usize, args: Vec<IntTerm>) -> StateVar {
    StateVar { fluent, args }
}

fn task_args() -> Vec<Vec<IntTerm>> {
    vec![vec![IntTerm::Var(5), IntTerm::Var(6), IntTerm::Var(7)], vec![IntTerm::Var(2)]]
}

fn task(id: usize) -> Option<TaskId> {
    Some(TaskId::from_int(id))
}

type RowParts = (RowExprType, Vec<(i32, ColTag)>, Vec<(i32, ColTag)>, i32);

fn parts(r: &RowExpr) -> RowParts {
    (r.tpe, r.lhs().to_vec(), r.rhs().to_vec(), r.cst())
}

fn pt(t: usize) -> (i32, ColTag) {
    (1, ColTag::PresenceTransition(t, None))
}

fn ps(s: Option<TaskId>) -> (i32, ColTag) {
    (1, ColTag::PresenceSource(s, None))
}

fn sup(o: usize, i: usize) -> (i32, ColTag) {
    (1, ColTag::Support(o, i, None))
}

#[test]
fn lifted_rows_of_a_small_problem() {
    let conditions = vec![
        Condition { source: None, state_var: sv(0, vec![IntTerm::Cst(1)]), prez: 1, value: IntTerm::Cst(0) },
        Condition { source: task(0), state_var: sv(1, vec![IntTerm::Var(5)]), prez: 2, value: IntTerm::Cst(1) },
        Condition { source: task(0), state_var: sv(0, vec![IntTerm::Var(5)]), prez: 2, value: IntTerm::Var(6) },
        Condition { source: task(1), state_var: sv(1, vec![IntTerm::Cst(2)]), prez: 3, value: IntTerm::Cst(0) },
    ];
    let mut effects = vec![
        Effect { source: None, state_var: sv(0, vec![IntTerm::Cst(1)]), prez: 1, op: IntTerm::Cst(1) },
        Effect { source: task(0), state_var: sv(1, vec![IntTerm::Var(5)]), prez: 2, op: IntTerm::Cst(0) },
        Effect { source: task(1), state_var: sv(1, vec![IntTerm::Cst(2)]), prez: 4, op: IntTerm::Cst(1) },
        Effect { source: task(0), state_var: sv(0, vec![IntTerm::Var(5)]), prez: 2, op: IntTerm::Var(7) },
    ];
    let tr = Transitions::new_unambiguous(&conditions, &mut effects, &[], &task_args(), &[], &[2], &[3], false);
    let links = vec![CausalLink { eff_id: 0, cond_id: 0, active: 9 }];
    let supports = Supports::from(&tr, &conditions, &effects, &links, false);
    let sorted = supports.sort();
    let presences_equivalent = vec![true, true, false, true, true];
    let mut problem = LpRelaxProblem::default();
    encode_problem_lifted(&tr, &supports, &sorted, &presences_equivalent, &mut problem);
    let rows: Vec<RowParts> = problem.rows().iter().map(parts).collect();
    let expected: Vec<RowParts> = vec![
        (RowExprType::Eq, vec![ps(None)], vec![], 1),
        (RowExprType::Eq, vec![pt(0)], vec![ps(None)], 0),
        (RowExprType::Eq, vec![pt(3)], vec![ps(None)], 0),
        (RowExprType::Eq, vec![pt(1)], vec![ps(task(0))], 0),
        // the presences of transition 2 and of task 1 are not equivalent
        (RowExprType::Leq, vec![pt(2)], vec![ps(task(1))], 0),
        (RowExprType::Eq, vec![pt(4)], vec![ps(task(1))], 0),
        // the support into the condition transition 0 needs its supporter
        (RowExprType::Leq, vec![sup(3, 0)], vec![pt(3)], 0),
        // inflows
        (RowExprType::Eq, vec![pt(0)], vec![sup(3, 0)], 0),
        (RowExprType::Geq, vec![pt(4)], vec![sup(1, 4)], 0),
        // outflow of 1 (that of 3 only goes into a condition)
        (RowExprType::Geq, vec![pt(1)], vec![sup(1, 4)], 0),
    ];
    assert_eq!(rows, expected);
}

#[test]
fn lifted_rows_forbid_mutual_supports() {
    // Two effects of two tasks on the same state variable support each other.
    let conditions: Vec<Condition> = vec![];
    let mut effects = vec![
        Effect { source: task(0), state_var: sv(0, vec![]), prez: 1, op: IntTerm::Cst(1) },
        Effect { source: task(1), state_var: sv(0, vec![]), prez: 2, op: IntTerm::Cst(0) },
    ];
    let tr = Transitions::new_unambiguous(&conditions, &mut effects, &[], &task_args(), &[], &[], &[], false);
    let supports = Supports::from(&tr, &conditions, &effects, &[], false);
    assert_eq!(supports.unsorted_out().to_vec(), vec![((0, 1), None), ((1, 0), None)]);
    let sorted = supports.sort();
    let mut problem = LpRelaxProblem::default();
    encode_problem_lifted(&tr, &supports, &sorted, &[true, true], &mut problem);
    let rows: Vec<RowParts> = problem.rows().iter().map(parts).collect();
    let cycle: RowParts = (RowExprType::Leq, vec![sup(1, 0), sup(0, 1)], vec![], 1);
    assert!(rows.contains(&cycle));
    assert_eq!(rows.iter().filter(|r| r.0 == RowExprType::Leq && r.3 == 1).count(), 1);
}

#[test]
fn lifted_inflows_of_effects_are_equalities_once_defaults_are_recovered() {
    let conditions: Vec<Condition> = vec![];
    let mut effects = vec![
        Effect { source: task(0), state_var: sv(0, vec![]), prez: 1, op: IntTerm::Cst(1) },
        Effect { source: task(1), state_var: sv(0, vec![]), prez: 2, op: IntTerm::Cst(0) },
    ];
    let fluents = vec![Fluent { params: vec![], ret: Segment::new(0, 1) }];
    let tr = Transitions::new_unambiguous(&conditions, &mut effects, &fluents, &task_args(), &[], &[], &[], true);
    assert_eq!(effects.len(), 3);
    let supports = Supports::from(&tr, &conditions, &effects, &[], false);
    assert_eq!(
        supports.unsorted_out().to_vec(),
        vec![((0, 1), None), ((1, 0), None), ((2, 0), None), ((2, 1), None)]
    );
    let sorted = supports.sort();
    let mut problem = LpRelaxProblem::default();
    encode_problem_lifted(&tr, &supports, &sorted, &[true, true, true], &mut problem);
    let rows: Vec<RowParts> = problem.rows().iter().map(parts).collect();
    assert!(rows.contains(&(RowExprType::Eq, vec![pt(0)], vec![sup(1, 0), sup(2, 0)], 0)));
    assert!(rows.contains(&(RowExprType::Eq, vec![pt(1)], vec![sup(0, 1), sup(2, 1)], 0)));
    assert!(!rows.iter().any(|r| r.0 == RowExprType::Geq && r.1 == vec![pt(0)] && r.2.len() == 2));
}
