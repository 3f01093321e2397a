use aries_planning::classical::centralite as classical_centralite;
use aries_planning::classical::state::{Lit, Op, Operator, Operators, SVId, State};
use aries_planning::classical::GroundProblem;
use aries_planning::explain::abstraction::{abstractionaction, abstractionop};
use aries_planning::explain::cause::{
    causalite2, causalitegoals2, matricemenace2, matricesupport2, matricesupport3,
};
use aries_planning::explain::centralite::{
    calculcentraliteglobal2, regroupementcentralite, regroupementcentraliteaction, regroupementcentraliteop,
};
use aries_planning::explain::compare::{history_differences, matrix_differences, state_differences};
use aries_planning::explain::choice::{choixpredaction, choixpredaction2, choixpredaction3, choixpredicat};
use aries_planning::explain::coordination::{
    coordination, coordinationmultiple, liencoormultisynchro, poidsparametreavantage, poidsparametredesavantage,
    synchronisation,
};
use aries_planning::explain::explain::matricesupport;
use aries_planning::explain::matrix::IntMatrix;
use aries_planning::explain::necessity::{explicabilite, uniexpli, uniquement};
use aries_planning::explain::question::{
    inverseweightwaydetail, researchsynchro, weightway, weightwaydetail, weightwaydetailetape, weightwaygoal,
    weightwaygoal2,
};
use aries_planning::explain::state2::{defaultresume, newnec, newresume, Necessaire, Obligationtemp, Resume};
use aries_planning::explain::threats::{
    inversibilite, matricemenace, menace, menace2, menace2_origines, threatened_links,
};
use aries_planning::explain::weighted::{dijkstrapoids, dijkstrapoidsavantage};

fn lit(v: usize, val: bool) -> Lit {
    Lit::new(SVId { id: v }, val)
}

fn op(ops: &mut Operators, name: Vec<usize>, precond: Vec<Lit>, effects: Vec<Lit>) -> Op {
    ops.push(Operator { name, precond, effects })
}

/// The chain of the explanation tests, with names: actions 10, 11, 12, and 10 again for the last
/// step; parameters 1 and 2.
fn chain() -> (Vec<Op>, GroundProblem) {
    let mut ops = Operators::new();
    let o0 = op(&mut ops, vec![10, 1], vec![], vec![lit(0, true)]);
    let o1 = op(&mut ops, vec![11, 1], vec![lit(0, true)], vec![lit(1, true)]);
    let o2 = op(&mut ops, vec![12, 2], vec![lit(1, true)], vec![lit(2, true)]);
    let o3 = op(&mut ops, vec![10, 2], vec![], vec![lit(0, false)]);
    let ground = GroundProblem { initial_state: State::new(3), operators: ops, goals: vec![lit(2, true)] };
    (vec![o0, o1, o2, o3], ground)
}

/// Step 1 sets again a variable that step 0 already set, and step 2 needs it.
fn reset() -> (Vec<Op>, GroundProblem) {
    let mut ops = Operators::new();
    let a = op(&mut ops, vec![1], vec![], vec![lit(0, true)]);
    let d = op(&mut ops, vec![2], vec![], vec![lit(0, true)]);
    let c = op(&mut ops, vec![3], vec![lit(0, true)], vec![lit(1, true)]);
    let ground = GroundProblem { initial_state: State::new(2), operators: ops, goals: vec![lit(1, true)] };
    (vec![a, d, c], ground)
}

fn ones(m: &IntMatrix) -> Vec<(usize, usize, i32)> {
    let mut out = Vec::new();
    for i in 0..m.nrows() {
        for j in 0..m.ncols() {
            if m.get(i, j) != 0 {
                out.push((i, j, m.get(i, j)));
            }
        }
    }
    out
}

fn summary(v: &[Necessaire]) -> Vec<(i32, bool, u32, Option<Vec<Resume>>)> {
    v.iter().map(|n| (n.opnec().numero(), n.nec(), n.long(), n.chemin())).collect()
}

fn ots(v: &[Obligationtemp]) -> Vec<(Op, i32, Op, i32)> {
    v.iter().map(|o| (o.operateur().0, o.etape().0, o.operateur().1, o.etape().1)).collect()
}

#[test]
fn weighted_necessity() {
    let (plan, ground) = chain();
    let m = matricesupport(&plan, &ground);
    let r = |k: usize| newresume(plan[k], k as i32);
    let res = dijkstrapoids(&plan, &ground, &m, &vec![SVId { id: 1 }], 5);
    assert_eq!(
        summary(&res),
        vec![
            (2, true, 0, None),
            (1, true, 5, Some(vec![r(2)])),
            (0, true, 6, Some(vec![r(2), r(1)])),
            (3, false, 17, None),
        ]
    );
    let res = dijkstrapoidsavantage(&plan, &ground, &m, &vec![SVId { id: 1 }], 5);
    assert_eq!(
        summary(&res),
        vec![
            (2, true, 0, None),
            (1, true, 1, Some(vec![r(2)])),
            (0, true, 6, Some(vec![r(2), r(1)])),
            (3, false, 17, None),
        ]
    );
}

#[test]
fn threats_between_steps() {
    let (plan, ground) = chain();
    let (o0, o1, o2, o3) = (plan[0], plan[1], plan[2], plan[3]);
    assert_eq!(ots(&menace(plan.clone(), &ground)), vec![(o1, 1, o0, 0), (o2, 2, o1, 1), (o1, 1, o3, 3)]);
    assert_eq!(ots(&menace2(plan.clone(), &ground)), vec![(o3, 3, o1, 1)]);

    let (plan, ground) = reset();
    let (a, d, c) = (plan[0], plan[1], plan[2]);
    assert_eq!(ots(&menace(plan.clone(), &ground)), vec![(c, 2, a, 0), (c, 2, d, 1)]);
    assert_eq!(ots(&menace2(plan.clone(), &ground)), vec![(d, 1, a, 0)]);
    let detail = menace2_origines(&plan, &ground);
    assert_eq!(detail.len(), 1);
    assert_eq!((detail[0].0.etape(), detail[0].1), ((1, 0), 2));
}

#[test]
fn threat_matrices() {
    let (plan, ground) = reset();
    let m = matricemenace(&plan, &ground);
    assert_eq!((m.nrows(), m.ncols()), (4, 4));
    assert_eq!(ones(&m), vec![(1, 2, -1)]);
    assert_eq!(ones(&matricemenace2(&plan, &ground)), vec![(1, 2, -1)]);
}

#[test]
fn swappable_neighbours() {
    let mut ops = Operators::new();
    let x = op(&mut ops, vec![1], vec![lit(0, false)], vec![lit(1, true)]);
    let y = op(&mut ops, vec![2], vec![], vec![lit(0, true)]);
    let ground = GroundProblem { initial_state: State::new(2), operators: ops, goals: vec![lit(1, true)] };
    assert_eq!(ots(&inversibilite(vec![x, y], &ground)), vec![(x, 0, y, 1)]);
    let (plan, ground) = chain();
    assert!(inversibilite(plan, &ground).is_empty());
}

#[test]
fn unique_operators() {
    let (plan, _) = chain();
    let u = uniquement(vec![plan[0], plan[1], plan[0], plan[2]]);
    let v: Vec<(Op, bool)> = u.iter().map(|x| (x.operateur(), x.unicite())).collect();
    assert_eq!(v, vec![(plan[0], false), (plan[1], true), (plan[2], true)]);
}

#[test]
fn shortest_records() {
    let (plan, _) = chain();
    let r0 = newresume(plan[0], 0);
    let r1 = newresume(plan[1], 1);
    let input = vec![
        newnec(r0, false, vec![], 3),
        newnec(r1, true, vec![r0], 2),
        newnec(r0, true, vec![r1], 1),
        newnec(r0, true, vec![], 5),
    ];
    let out = uniexpli(input);
    assert_eq!(summary(&out), vec![(0, true, 1, Some(vec![r1])), (1, true, 2, Some(vec![r0]))]);
}

#[test]
fn explanation_backwards() {
    let (plan, ground) = chain();
    let r = |k: usize| newresume(plan[k], k as i32);
    let out = explicabilite(plan.clone(), &ground);
    assert_eq!(
        summary(&out),
        vec![
            (2, true, 0, None),
            (3, false, 0, None),
            (1, true, 1, Some(vec![r(2)])),
            (0, true, 2, Some(vec![r(2), r(1)])),
        ]
    );
}

#[test]
fn chosen_variables() {
    let (plan, ground) = chain();
    assert_eq!(choixpredicat(1, &ground.initial_state), SVId { id: 1 });
    assert_eq!(choixpredicat(7, &ground.initial_state), SVId { id: 2 });
    assert_eq!(choixpredaction(1, &plan, &ground), vec![SVId { id: 0 }, SVId { id: 1 }]);
    assert_eq!(choixpredaction2(0, &plan, &ground), vec![SVId { id: 0 }, SVId { id: 0 }]);
    assert_eq!(choixpredaction3(Some(12), &plan, &ground), vec![SVId { id: 2 }]);
    assert_eq!(choixpredaction3(None, &plan, &ground), Vec::<SVId>::new());
}

#[test]
fn weighted_questions() {
    let (plan, ground) = chain();
    let m = matricesupport(&plan, &ground);
    let r = |k: usize| newresume(plan[k], k as i32);
    assert!(weightwaygoal(3, 1, &m, &plan, &ground, 5));
    assert!(!weightwaygoal(9, 1, &m, &plan, &ground, 5));
    assert_eq!(weightwaygoal2(0, Some(11), &m, &plan, &ground, 5), Some(vec![r(2), r(1)]));
    assert_eq!(weightwaygoal2(3, Some(11), &m, &plan, &ground, 5), None);
    assert_eq!(weightwaydetail(2, 0, Some(11), &m, &plan, &ground, 5), Some(vec![r(2), r(1)]));
    assert!(weightway(2, 0, Some(11), &m, &plan, &ground, 5));
    assert!(!weightway(2, 3, Some(11), &m, &plan, &ground, 5));
    assert_eq!(inverseweightwaydetail(2, 0, Some(11), &m, &plan, &ground, 5), Some(vec![r(2), r(1)]));
    assert_eq!(weightwaydetailetape(2, 0, 1, &m, &plan, &ground, 5), Some(vec![r(2), r(1)]));
}

#[test]
fn groups_of_steps() {
    let (plan, ground) = chain();
    let (o0, o1, o2, o3) = (plan[0], plan[1], plan[2], plan[3]);
    let g = coordination(&vec![Some(1), None, Some(2), Some(1)], &plan, &ground);
    assert_eq!(g, vec![(1, vec![o0, o1]), (2, vec![o2, o3])]);
    assert_eq!(coordinationmultiple(&vec![Some(10), Some(2)], &plan, &ground), vec![o3]);
    assert_eq!(liencoormultisynchro(&vec![o1, o2], Some(7)), vec![(7, vec![o1, o2])]);
    assert_eq!(liencoormultisynchro(&vec![o1, o2], None), Vec::<(usize, Vec<Op>)>::new());

    let m = matricesupport(&plan, &ground);
    let w = poidsparametredesavantage(9, &m, &vec![(1, vec![o0, o1])], &plan, &ground);
    assert_eq!(ones(&w), vec![(0, 1, 9), (1, 2, 9), (2, 4, 1)]);
    let w = poidsparametreavantage(9, &m, &vec![(1, vec![o0, o1])], &plan, &ground);
    assert_eq!(ones(&w), vec![(0, 1, 1), (1, 2, 1), (2, 4, 9)]);

    assert_eq!(synchronisation(&g, &m, &plan), vec![newresume(o1, 1)]);
    assert_eq!(researchsynchro(&vec![Some(1), Some(2)], &m, &plan, &ground), vec![newresume(o1, 1)]);
}

#[test]
fn abstraction_groups() {
    let (plan, ground) = chain();
    let mut m = IntMatrix::from_diagonal_element(6, 6, 0);
    m.set(0, 1, 1);
    m.set(1, 0, 1);
    m.set(2, 2, 1);
    assert_eq!(abstractionop(&m, &plan, &ground), vec![vec![plan[1], plan[0]]]);
    assert_eq!(abstractionaction(&m, &plan, &ground), vec![vec![11, 10], vec![12, 12]]);
}

#[test]
fn step_by_step_causes() {
    let (plan, ground) = chain();
    let histo = vec![defaultresume(); 3];
    let (e1, h1, l1) = causalite2(0, &plan, &ground.initial_state, &ground.operators, &histo);
    assert!(l1.is_empty());
    assert_eq!(h1, vec![newresume(plan[0], 0), defaultresume(), defaultresume()]);
    let (_, h2, l2) = causalite2(1, &plan, &e1, &ground.operators, &h1);
    assert_eq!(l2, vec![newresume(plan[0], 0)]);
    assert_eq!(h2, vec![newresume(plan[0], 0), newresume(plan[1], 1), defaultresume()]);
    let h = vec![newresume(plan[0], 0), newresume(plan[1], 1), newresume(plan[2], 2)];
    assert_eq!(causalitegoals2(&plan, &e1, &ground.operators, &h, &ground.goals), vec![newresume(plan[2], 2)]);
}

#[test]
fn support_matrix_variants() {
    let mut ops = Operators::new();
    let o0 = op(&mut ops, vec![1], vec![lit(0, false)], vec![lit(1, true)]);
    let ground =
        GroundProblem { initial_state: State::new(2), operators: ops, goals: vec![lit(1, true), lit(0, false)] };
    let plan = vec![o0];
    assert_eq!(ones(&matricesupport(&plan, &ground)), vec![(0, 1, 1), (2, 0, 1)]);
    assert_eq!(ones(&matricesupport2(&plan, &ground)), vec![(0, 1, 1), (2, 0, 1), (2, 1, 1)]);

    let (plan, ground) = reset();
    assert_eq!(ones(&matricesupport(&plan, &ground)), vec![(0, 2, 1), (2, 3, 1)]);
    assert_eq!(ones(&matricesupport3(&plan, &ground)), vec![(1, 2, 1), (2, 3, 1)]);
}

#[test]
fn centrality() {
    let (plan, ground) = chain();
    let m = matricesupport(&plan, &ground);
    let c = calculcentraliteglobal2(&m);
    assert_eq!(c, vec![(0, 1), (1, 1), (1, 1), (0, 0), (1, 0), (0, 0)]);
    assert_eq!(classical_centralite::calculcentraliteglobal2(&m), c);
    let r = |k: usize| newresume(plan[k], k as i32);
    assert_eq!(regroupementcentralite(&c, &plan), vec![((0, 1), vec![r(0)]), ((1, 1), vec![r(1), r(2), r(3)])]);
    let by_op = regroupementcentraliteop(&vec![0.5f32, 1.0, 2.0], &vec![plan[0], plan[1], plan[0], plan[2]]);
    assert_eq!(by_op, vec![(plan[0], vec![0.5f32, 2.0]), (plan[1], vec![1.0])]);
    assert_eq!(
        classical_centralite::regroupementcentraliteaction(&vec![0.5f32, 1.0, 2.0], &vec![plan[0], plan[1], plan[0], plan[2]]),
        by_op
    );
    let by_action = regroupementcentraliteaction(&vec![1, 2, 3, 4, 5], &plan, &ground);
    assert_eq!(by_action, vec![(10, vec![1, 4]), (11, vec![2]), (12, vec![3])]);
}

#[test]
fn differences() {
    let (plan, ground) = chain();
    let mut s1 = State::new(3);
    s1.set(lit(0, true));
    assert_eq!(state_differences(&ground.initial_state, &s1), 1);
    assert_eq!(state_differences(&ground.initial_state, &State::new(3)), 0);
    let r0 = newresume(plan[0], 0);
    assert_eq!(history_differences(&vec![r0, defaultresume()], &vec![r0]), 1);
    let m1 = IntMatrix::from_diagonal_element(2, 2, 0);
    let mut m2 = IntMatrix::from_diagonal_element(2, 2, 0);
    m2.set(1, 0, 3);
    assert_eq!(matrix_differences(&m1, &m2), Some(vec![(1, 0, 0, 3)]));
    assert_eq!(matrix_differences(&m1, &IntMatrix::from_diagonal_element(2, 3, 0)), None);
}

#[test]
fn threatened_support_links() {
    let (plan, _) = reset();
    let mut support = IntMatrix::from_diagonal_element(5, 5, 0);
    support.set(0, 2, 1);
    support.set(1, 2, 1);
    let mut menace = IntMatrix::from_diagonal_element(4, 4, 0);
    menace.set(1, 0, -1);
    menace.set(1, 2, -2);
    assert_eq!(threatened_links(&plan, &menace, &support, 1, 2), vec![0]);
    assert_eq!(threatened_links(&plan, &menace, &support, 0, 2), Vec::<usize>::new());
}
