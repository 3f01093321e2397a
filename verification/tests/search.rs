use aries_planning::classical::heuristics::{hadd, INF};
use aries_planning::classical::search::{extract_relaxed_plan, plan_search, Cfg};
use aries_planning::classical::state::{Lit, Op, Operator, Operators, SVId, State};

fn lit(v: usize, val: bool) -> Lit {
    Lit::new(SVId { id: v }, val)
}

/// Runs `plan` from `init`, checking that each step is applicable, and tells whether the goals
/// hold at the end.
fn reaches(init: &State, ops: &Operators, plan: &[Op], goals: &[Lit]) -> bool {
    let mut s = init.copy();
    for &op in plan {
        if !s.entails_all(ops.preconditions(op)) {
            return false;
        }
        s.set_all(ops.effects(op));
    }
    s.entails_all(goals)
}

/// v0 is made true, then v1 from v0, then v2 from v1; v3 can never be made true.
fn chain() -> (State, Operators) {
    let mut ops = Operators::new();
    ops.push(Operator { name: vec![], precond: vec![lit(1, true)], effects: vec![lit(2, true)] });
    ops.push(Operator { name: vec![], precond: vec![lit(0, true)], effects: vec![lit(1, true)] });
    ops.push(Operator { name: vec![], precond: vec![], effects: vec![lit(0, true)] });
    ops.push(Operator { name: vec![], precond: vec![lit(3, true)], effects: vec![lit(2, false)] });
    (State::new(4), ops)
}

#[test]
fn search_finds_a_plan() {
    let (init, ops) = chain();
    let goals = vec![lit(2, true)];
    for cfg in [Cfg::default(), Cfg { h_weight: 1, use_lookahead: false }] {
        let plan = plan_search(&init, &ops, &goals, &cfg).expect("the goal is reachable");
        assert!(reaches(&init, &ops, &plan, &goals));
    }
}

#[test]
fn search_reports_unsolvable_problems() {
    let (init, ops) = chain();
    // nothing makes v3 true
    let goals = vec![lit(2, true), lit(3, true)];
    assert_eq!(plan_search(&init, &ops, &goals, &Cfg::default()), None);
    assert_eq!(plan_search(&init, &ops, &goals, &Cfg { h_weight: 2, use_lookahead: false }), None);
}

#[test]
fn search_with_goals_already_true() {
    let (init, ops) = chain();
    assert_eq!(plan_search(&init, &ops, &[lit(3, false)], &Cfg::default()), Some(vec![]));
}

#[test]
fn search_needs_to_undo_an_effect() {
    // v0 must be false at the end, but the only way to v1 goes through v0
    let mut ops = Operators::new();
    ops.push(Operator { name: vec![], precond: vec![], effects: vec![lit(0, true)] });
    ops.push(Operator { name: vec![], precond: vec![lit(0, true)], effects: vec![lit(1, true)] });
    ops.push(Operator { name: vec![], precond: vec![lit(1, true)], effects: vec![lit(0, false)] });
    let init = State::new(2);
    let goals = vec![lit(1, true), lit(0, false)];
    for cfg in [Cfg::default(), Cfg { h_weight: 1, use_lookahead: false }] {
        let plan = plan_search(&init, &ops, &goals, &cfg).expect("the goals are reachable");
        assert!(reaches(&init, &ops, &plan, &goals));
        assert!(plan.len() >= 3);
    }
}

#[test]
fn additive_costs() {
    let (init, ops) = chain();
    let h = hadd(&init, &ops);
    // literals that hold cost nothing
    assert_eq!(h.lit_cost(lit(0, false)), 0);
    // v0: one step, v1: two steps, v2: three steps
    assert_eq!(h.lit_cost(lit(0, true)), 1);
    assert_eq!(h.lit_cost(lit(1, true)), 2);
    assert_eq!(h.lit_cost(lit(2, true)), 3);
    assert_eq!(h.lit_cost(lit(3, true)), INF);
    assert_eq!(h.operator_cost(Op::new(3)), INF);
    assert_eq!(h.conjunction_cost(&[lit(1, true), lit(2, true)]), 5);
    assert_eq!(h.conjunction_cost(&[lit(2, true), lit(3, true)]), INF);
    assert_eq!(h.conjunction_cost(&[lit(3, false)]), 0);
    // only the operator without preconditions applies at first
    assert_eq!(h.applicable_operators(), &[Op::new(2)]);
}

#[test]
fn relaxed_plan_reaches_the_goal_in_the_relaxation() {
    let (init, ops) = chain();
    let h = hadd(&init, &ops);
    let rplan = extract_relaxed_plan(&ops, &[lit(2, true)], &init, &h);
    let mut ids: Vec<usize> = rplan.iter().map(|o| o.id).collect();
    ids.sort();
    assert_eq!(ids, vec![0, 1, 2]);
}
