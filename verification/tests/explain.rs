use aries_planning::classical::state::{Lit, Op, Operator, Operators, SVId, State};
use aries_planning::classical::GroundProblem;
use aries_planning::explain::explain::{
    causalite, causalitegoals, dijkstra, dijkstra2, h_step, matricesupport, step, supportindirectavantagepoid,
    supportindirectpoid,
};
use aries_planning::explain::matrix::IntMatrix;
use aries_planning::explain::state2::{defaultresume, newresume};

fn lit(v: usize, val: bool) -> Lit {
    Lit::new(SVId { id: v }, val)
}

/// A chain: step 0 makes v0 true, step 1 needs it and makes v1 true, step 2 needs v1 and makes
/// the goal v2 true, step 3 only sets v0 back to false.
fn chain() -> (Vec<Op>, GroundProblem) {
    let mut ops = Operators::new();
    let o0 = ops.push(Operator { name: vec![], precond: vec![], effects: vec![lit(0, true)] });
    let o1 = ops.push(Operator { name: vec![], precond: vec![lit(0, true)], effects: vec![lit(1, true)] });
    let o2 = ops.push(Operator { name: vec![], precond: vec![lit(1, true)], effects: vec![lit(2, true)] });
    let o3 = ops.push(Operator { name: vec![], precond: vec![], effects: vec![lit(0, false)] });
    let ground = GroundProblem { initial_state: State::new(3), operators: ops, goals: vec![lit(2, true)] };
    (vec![o0, o1, o2, o3], ground)
}

#[test]
fn steps_and_history() {
    let (plan, ground) = chain();
    let s1 = step(&ground.initial_state, &plan[0], &ground.operators);
    assert!(s1.is_set(SVId { id: 0 }) && !s1.is_set(SVId { id: 1 }));
    let histo = vec![defaultresume(); 3];
    let (s2, h) = h_step(&s1, &plan[1], &ground.operators, 1, histo);
    assert!(s2.is_set(SVId { id: 1 }));
    assert_eq!(h, vec![defaultresume(), newresume(plan[1], 1), defaultresume()]);
}

#[test]
fn supports() {
    let (plan, ground) = chain();
    assert_eq!(causalite(1, plan.clone(), &ground.initial_state, &ground.operators), vec![newresume(plan[0], 0)]);
    assert_eq!(causalite(2, plan.clone(), &ground.initial_state, &ground.operators), vec![newresume(plan[1], 1)]);
    assert_eq!(causalite(0, plan.clone(), &ground.initial_state, &ground.operators), vec![]);
    assert_eq!(
        causalitegoals(plan.clone(), &ground.initial_state, &ground.operators, &ground.goals),
        vec![newresume(plan[2], 2)]
    );
}

#[test]
fn support_from_initial_state() {
    // a step whose precondition holds from the start is supported by the initial state
    let mut ops = Operators::new();
    let o0 = ops.push(Operator { name: vec![], precond: vec![lit(0, false)], effects: vec![lit(1, true)] });
    let ground = GroundProblem { initial_state: State::new(2), operators: ops, goals: vec![lit(1, true)] };
    let plan = vec![o0];
    assert_eq!(causalite(0, plan.clone(), &ground.initial_state, &ground.operators), vec![defaultresume()]);
    let m = matricesupport(&plan, &ground);
    assert_eq!(m.get(2, 0), 1);
    assert_eq!(m.get(0, 1), 1);
}

#[test]
fn support_matrix() {
    let (plan, ground) = chain();
    let m = matricesupport(&plan, &ground);
    assert_eq!((m.nrows(), m.ncols()), (6, 6));
    let mut ones = Vec::new();
    for i in 0..6 {
        for j in 0..6 {
            if m.get(i, j) != 0 {
                ones.push((i, j));
            }
        }
    }
    assert_eq!(ones, vec![(0, 1), (1, 2), (2, 4)]);
}

#[test]
fn necessity() {
    let (plan, ground) = chain();
    let res = dijkstra(plan.clone(), &ground);
    let summary: Vec<(i32, bool, u32)> = res.iter().map(|n| (n.opnec().numero(), n.nec(), n.long())).collect();
    assert_eq!(summary, vec![(2, true, 0), (1, true, 1), (0, true, 2), (3, false, 5)]);
    assert_eq!(res[0].chemin(), None);
    assert_eq!(res[1].chemin(), Some(vec![newresume(plan[2], 2)]));
    assert_eq!(res[2].chemin(), Some(vec![newresume(plan[2], 2), newresume(plan[1], 1)]));
    assert_eq!(res[3].chemin(), None);

    let m = matricesupport(&plan, &ground);
    let res2 = dijkstra2(&m, plan.clone(), &ground);
    let summary2: Vec<(i32, bool, u32)> = res2.iter().map(|n| (n.opnec().numero(), n.nec(), n.long())).collect();
    assert_eq!(summary2, summary);
}

#[test]
fn indirect_supports() {
    let (plan, ground) = chain();
    let m = matricesupport(&plan, &ground);
    let r = supportindirectpoid(2, 0, &plan, &ground, &m, &vec![], 7);
    assert_eq!((r.opnec().numero(), r.nec(), r.long()), (0, true, 2));
    let r = supportindirectavantagepoid(2, 0, &plan, &ground, &m, &vec![], 7);
    assert_eq!((r.opnec().numero(), r.nec(), r.long()), (0, true, 2));
    // with a zero weight the links disappear
    let r = supportindirectavantagepoid(2, 0, &plan, &ground, &m, &vec![], 0);
    assert_eq!((r.nec(), r.long()), (false, 17));
    let r = supportindirectpoid(2, 0, &plan, &ground, &m, &vec![SVId { id: 0 }, SVId { id: 1 }], 0);
    assert_eq!((r.nec(), r.long()), (false, 17));
    let r = supportindirectpoid(2, 10, &plan, &ground, &m, &vec![], 7);
    assert_eq!((r.opnec().numero(), r.opnec().op(), r.nec(), r.long()), (10, None, false, 5));
}

#[test]
fn matrices() {
    let mut m = IntMatrix::from_diagonal_element(2, 3, 7);
    assert_eq!((m.get(0, 0), m.get(1, 1), m.get(0, 2)), (7, 7, 0));
    m.set(1, 2, -4);
    assert_eq!(m.get_opt(1, 2), Some(-4));
    assert_eq!(m.get_opt(2, 0), None);
    assert_eq!(m.copy().get(1, 2), -4);
}
