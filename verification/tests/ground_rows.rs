use aries_planning::timelines::boxes::Segment;
use aries_planning::timelines::transitions::Fluent;
use aries_planning::timelines::ground_rows::encode_problem_ground;
use aries_planning::timelines::groundings::{IntTerm, SourcesGroundingsInfo, TaskId, TransitionGroundingId};
use aries_planning::timelines::lprelax::{ColTag, LpRelaxProblem, RowExpr, RowExprType};
use aries_planning::timelines::supports::{SupportsGroundingsInfo, SupportsSorted, TransitionsGroundingsInfo};
use aries_planning::timelines::transitions::{Condition, Effect, StateVar, Supports, Transition, Transitions};

type RowParts = (RowExprType, Vec<(i32, ColTag)>, Vec<(i32, ColTag)>, i32);

fn parts(r: &RowExpr) -> RowParts {
    (r.tpe, r.lhs().to_vec(), r.rhs().to_vec(), r.cst())
}

fn task_args() -> Vec<Vec<IntTerm>> {
    vec![vec![IntTerm::Var(5), IntTerm::Var(6), IntTerm::Var(7)], vec![IntTerm::Var(2)]]
}

fn task(id: usize) -> Option<TaskId> {
    Some(TaskId::from_int(id))
}

fn tg(sv: usize, val: Option<i32>, op: Option<i32>) -> TransitionGroundingId {
    TransitionGroundingId { state_var_grounding_id: sv, val_assignment: val, op_assignment: op }
}

#[test]
fn ground_rows_of_a_small_problem() {
    // Transition 0: condition of task 0; 1: initial effect; 2: effect of task 1.
    let conditions = vec![Condition {
        source: task(0),
        state_var: StateVar { fluent: 0, args: vec![] },
        prez: 2,
        value: IntTerm::Var(1),
    }];
    let mut effects = vec![
        Effect { source: None, state_var: StateVar { fluent: 0, args: vec![] }, prez: 1, op: IntTerm::Cst(5) },
        Effect { source: task(1), state_var: StateVar { fluent: 1, args: vec![] }, prez: 3, op: IntTerm::Var(2) },
    ];
    let tr = Transitions::new_unambiguous(&conditions, &mut effects, &[], &task_args(), &[], &[], &[], false);
    assert_eq!(tr.get(0), Transition::Cond(0));
    assert_eq!(tr.get(1), Transition::Eff(0));
    assert_eq!(tr.get(2), Transition::Eff(1));
    let supports = Supports::from(&tr, &conditions, &effects, &[], false);

    let mut sources = SourcesGroundingsInfo::default();
    assert_eq!(sources.post_ground_source(None, &vec![]), 0);
    assert_eq!(sources.post_ground_source(task(0), &vec![5]), 1);
    assert_eq!(sources.post_ground_source(task(0), &vec![6]), 2);
    assert_eq!(sources.post_ground_source(task(1), &vec![4]), 3);

    let g0 = tg(0, None, Some(5));
    let g1 = tg(0, Some(5), None);
    let g1b = tg(0, Some(6), None);
    let g2 = tg(1, None, Some(4));
    let mut transitions_ground = TransitionsGroundingsInfo::default();
    transitions_ground.post_ground_transition(1, g0, None, 0);
    transitions_ground.post_ground_transition(0, g1, task(0), 1);
    transitions_ground.post_ground_transition(0, g1b, task(0), 2);
    transitions_ground.post_ground_transition(2, g2, task(1), 3);

    let sorted = SupportsSorted { sorted_out: vec![((1, 0), None), ((1, 2), None)], sorted_in: vec![(0, 1), (2, 1)] };
    let supports_ground = SupportsGroundingsInfo::from(&sorted, &transitions_ground);

    let mut problem = LpRelaxProblem::default();
    encode_problem_ground(&tr, &supports, &sources, &transitions_ground, &supports_ground, &[true, true, false], &mut problem);
    let rows: Vec<RowParts> = problem.rows().iter().map(parts).collect();

    let ps = |s: Option<TaskId>, g: Option<usize>| (1, ColTag::PresenceSource(s, g));
    let pt = |t: usize, g: Option<TransitionGroundingId>| (1, ColTag::PresenceTransition(t, g));
    let sup = |o: usize, i: usize, g: Option<(TransitionGroundingId, TransitionGroundingId)>| (1, ColTag::Support(o, i, g));
    let expected: Vec<RowParts> = vec![
        // sources and their groundings
        (RowExprType::Eq, vec![ps(None, None)], vec![ps(None, Some(0))], 0),
        (RowExprType::Eq, vec![ps(task(0), None)], vec![ps(task(0), Some(1)), ps(task(0), Some(2))], 0),
        (RowExprType::Eq, vec![ps(task(1), None)], vec![ps(task(1), Some(3))], 0),
        // transitions and their groundings
        (RowExprType::Eq, vec![pt(1, None)], vec![pt(1, Some(g0))], 0),
        (RowExprType::Eq, vec![pt(0, None)], vec![pt(0, Some(g1)), pt(0, Some(g1b))], 0),
        (RowExprType::Eq, vec![pt(2, None)], vec![pt(2, Some(g2))], 0),
        // ground transitions and the source groundings they were posted for
        (RowExprType::Eq, vec![pt(1, Some(g0))], vec![ps(None, Some(0))], 0),
        (RowExprType::Eq, vec![pt(0, Some(g1))], vec![ps(task(0), Some(1))], 0),
        (RowExprType::Eq, vec![pt(0, Some(g1b))], vec![ps(task(0), Some(2))], 0),
        (RowExprType::Leq, vec![pt(2, Some(g2))], vec![ps(task(1), Some(3))], 0),
        // the ground support into the condition needs its supporter
        (RowExprType::Leq, vec![sup(1, 0, Some((g0, g1)))], vec![pt(1, Some(g0))], 0),
        // supports and their ground supports
        (RowExprType::Eq, vec![sup(1, 0, None)], vec![sup(1, 0, Some((g0, g1)))], 0),
        (RowExprType::Eq, vec![sup(1, 2, None)], vec![], 0),
        // ground inflows
        (RowExprType::Eq, vec![pt(0, Some(g1))], vec![sup(1, 0, Some((g0, g1)))], 0),
        (RowExprType::Eq, vec![pt(0, Some(g1b))], vec![], 0),
        (RowExprType::Geq, vec![pt(2, Some(g2))], vec![], 0),
    ];
    assert_eq!(rows, expected);
}

#[test]
fn ground_effect_inflows_are_equalities_once_defaults_are_recovered() {
    // Transition 0: condition of task 0; 1: initial effect; 2: effect of task 1.
    let conditions = vec![Condition {
        source: task(0),
        state_var: StateVar { fluent: 0, args: vec![] },
        prez: 2,
        value: IntTerm::Var(1),
    }];
    let mut effects = vec![
        Effect { source: None, state_var: StateVar { fluent: 0, args: vec![] }, prez: 1, op: IntTerm::Cst(5) },
        Effect { source: task(1), state_var: StateVar { fluent: 1, args: vec![] }, prez: 3, op: IntTerm::Var(2) },
    ];
    // A fluent without parameters that no effect sets gets a default initial effect.
    let fluents = vec![Fluent { params: vec![], ret: Segment::new(0, 1) }, Fluent { params: vec![], ret: Segment::new(7, 8) }];
    let tr = Transitions::new_unambiguous(&conditions, &mut effects, &fluents, &task_args(), &[], &[], &[], true);
    assert!(!tr.are_recovered_closed_world_default_effects_empty());
    assert_eq!(tr.get(3), Transition::Eff(2));
    assert_eq!(tr.get(0), Transition::Cond(0));
    assert_eq!(tr.get(1), Transition::Eff(0));
    assert_eq!(tr.get(2), Transition::Eff(1));
    let supports = Supports::from(&tr, &conditions, &effects, &[], false);

    let mut sources = SourcesGroundingsInfo::default();
    assert_eq!(sources.post_ground_source(None, &vec![]), 0);
    assert_eq!(sources.post_ground_source(task(0), &vec![5]), 1);
    assert_eq!(sources.post_ground_source(task(0), &vec![6]), 2);
    assert_eq!(sources.post_ground_source(task(1), &vec![4]), 3);

    let g0 = tg(0, None, Some(5));
    let g1 = tg(0, Some(5), None);
    let g1b = tg(0, Some(6), None);
    let g2 = tg(1, None, Some(4));
    let mut transitions_ground = TransitionsGroundingsInfo::default();
    transitions_ground.post_ground_transition(1, g0, None, 0);
    transitions_ground.post_ground_transition(0, g1, task(0), 1);
    transitions_ground.post_ground_transition(0, g1b, task(0), 2);
    transitions_ground.post_ground_transition(2, g2, task(1), 3);

    let sorted = SupportsSorted { sorted_out: vec![((1, 0), None), ((1, 2), None)], sorted_in: vec![(0, 1), (2, 1)] };
    let supports_ground = SupportsGroundingsInfo::from(&sorted, &transitions_ground);

    let mut problem = LpRelaxProblem::default();
    encode_problem_ground(&tr, &supports, &sources, &transitions_ground, &supports_ground, &[true, true, false], &mut problem);
    let rows: Vec<RowParts> = problem.rows().iter().map(parts).collect();

    let ps = |s: Option<TaskId>, g: Option<usize>| (1, ColTag::PresenceSource(s, g));
    let pt = |t: usize, g: Option<TransitionGroundingId>| (1, ColTag::PresenceTransition(t, g));
    let sup = |o: usize, i: usize, g: Option<(TransitionGroundingId, TransitionGroundingId)>| (1, ColTag::Support(o, i, g));
    let expected: Vec<RowParts> = vec![
        // sources and their groundings
        (RowExprType::Eq, vec![ps(None, None)], vec![ps(None, Some(0))], 0),
        (RowExprType::Eq, vec![ps(task(0), None)], vec![ps(task(0), Some(1)), ps(task(0), Some(2))], 0),
        (RowExprType::Eq, vec![ps(task(1), None)], vec![ps(task(1), Some(3))], 0),
        // transitions and their groundings
        (RowExprType::Eq, vec![pt(1, None)], vec![pt(1, Some(g0))], 0),
        (RowExprType::Eq, vec![pt(0, None)], vec![pt(0, Some(g1)), pt(0, Some(g1b))], 0),
        (RowExprType::Eq, vec![pt(2, None)], vec![pt(2, Some(g2))], 0),
        // ground transitions and the source groundings they were posted for
        (RowExprType::Eq, vec![pt(1, Some(g0))], vec![ps(None, Some(0))], 0),
        (RowExprType::Eq, vec![pt(0, Some(g1))], vec![ps(task(0), Some(1))], 0),
        (RowExprType::Eq, vec![pt(0, Some(g1b))], vec![ps(task(0), Some(2))], 0),
        (RowExprType::Leq, vec![pt(2, Some(g2))], vec![ps(task(1), Some(3))], 0),
        // the ground support into the condition needs its supporter
        (RowExprType::Leq, vec![sup(1, 0, Some((g0, g1)))], vec![pt(1, Some(g0))], 0),
        // supports and their ground supports
        (RowExprType::Eq, vec![sup(1, 0, None)], vec![sup(1, 0, Some((g0, g1)))], 0),
        (RowExprType::Eq, vec![sup(1, 2, None)], vec![], 0),
        // ground inflows
        (RowExprType::Eq, vec![pt(0, Some(g1))], vec![sup(1, 0, Some((g0, g1)))], 0),
        (RowExprType::Eq, vec![pt(0, Some(g1b))], vec![], 0),
        // the inflow of the effect is now an equality
        (RowExprType::Eq, vec![pt(2, Some(g2))], vec![], 0),
    ];
    assert_eq!(rows, expected);
}
