use aries_planning::timelines::boxes::Segment;
use aries_planning::timelines::transitions::{Fluent, LIT_TRUE};
use aries_planning::timelines::groundings::{IntTerm, TaskId};
use aries_planning::timelines::transitions::{
    CausalLink, Condition, Effect, StateVar, Supports, Transition, TransitionType, Transitions,
};

fn sv(fluent: usize, args: Vec<IntTerm>) -> StateVar {
    StateVar { fluent, args }
}

fn task_args() -> Vec<Vec<IntTerm>> {
    vec![vec![IntTerm::Var(5), IntTerm::Var(6), IntTerm::Var(7)], vec![IntTerm::Var(2)]]
}

fn task(id: usize) -> Option<TaskId> {
    Some(TaskId::from_int(id))
}

fn example() -> (Vec<Condition>, Vec<Effect>) {
    let conditions = vec![
        Condition { source: None, state_var: sv(0, vec![IntTerm::Cst(1)]), prez: 1, value: IntTerm::Cst(0) },
        Condition { source: task(0), state_var: sv(1, vec![IntTerm::Var(5)]), prez: 2, value: IntTerm::Cst(1) },
        Condition { source: task(0), state_var: sv(0, vec![IntTerm::Var(5)]), prez: 2, value: IntTerm::Var(6) },
        Condition { source: task(1), state_var: sv(1, vec![IntTerm::Cst(2)]), prez: 3, value: IntTerm::Cst(0) },
    ];
    let mut effects = vec![
        Effect { source: None, state_var: sv(0, vec![IntTerm::Cst(1)]), prez: 1, op: IntTerm::Cst(1) },
        Effect { source: task(0), state_var: sv(1, vec![IntTerm::Var(5)]), prez: 2, op: IntTerm::Cst(0) },
        Effect { source: task(1), state_var: sv(1, vec![IntTerm::Cst(2)]), prez: 4, op: IntTerm::Cst(1) },
        Effect { source: task(0), state_var: sv(0, vec![IntTerm::Var(5)]), prez: 2, op: IntTerm::Var(7) },
    ];
    (conditions, effects)
}

#[test]
fn transitions_join_compatible_condition_and_effect_of_a_task() {
    let (conditions, mut effects) = example();
    let tr = Transitions::new_unambiguous(&conditions, &mut effects, &[], &task_args(), &[], &[2], &[3], false);
    assert_eq!(tr.len(), 5);
    let store: Vec<Transition> = (0..tr.len()).map(|t| tr.get(t)).collect();
    assert_eq!(
        store,
        vec![
            Transition::Cond(0),
            Transition::CondEff(1, 1),
            Transition::Cond(3),
            Transition::Eff(0),
            Transition::Eff(2),
        ]
    );
    assert_eq!(tr.get(1).tpe(), TransitionType::CondEff);
    assert_eq!(
        (0..4).map(|c| tr.of_condition(c)).collect::<Vec<_>>(),
        vec![Some(0), Some(1), None, Some(2)]
    );
    assert_eq!(
        (0..4).map(|e| tr.of_effect(e)).collect::<Vec<_>>(),
        vec![Some(3), Some(1), Some(4), None]
    );
    assert_eq!(tr.of_source(None), &[0, 3]);
    assert_eq!(tr.of_source(task(0)), &[1]);
    assert_eq!(tr.of_source(task(1)), &[2, 4]);
    assert!(tr.of_source(task(5)).is_empty());
}

#[test]
fn transitions_of_initial_effects_never_join_conditions() {
    let (conditions, mut effects) = example();
    // Nothing ignored: the effect of task 0 on fluent 0 now joins the condition of task 0 on it.
    let tr = Transitions::new_unambiguous(&conditions, &mut effects, &[], &task_args(), &[], &[], &[], false);
    assert_eq!(tr.of_condition(0), Some(0));
    assert_eq!(tr.get(tr.of_effect(0).unwrap()), Transition::Eff(0));
    assert_eq!(tr.get(tr.of_effect(3).unwrap()), Transition::CondEff(2, 3));
    assert_eq!(tr.len(), 6);
}

#[test]
fn supports_from_links_effects_and_conditions() {
    let (conditions, mut effects) = example();
    let tr = Transitions::new_unambiguous(&conditions, &mut effects, &[], &task_args(), &[], &[2], &[3], false);
    let links = vec![
        CausalLink { eff_id: 0, cond_id: 0, active: 9 },
        // same transition on both ends: dropped
        CausalLink { eff_id: 1, cond_id: 1, active: 10 },
        // ignored effect: no transition
        CausalLink { eff_id: 3, cond_id: 3, active: 11 },
    ];
    let with_conditions = Supports::from(&tr, &conditions, &effects, &links, true);
    assert!(with_conditions.with_condition_out_transitions);
    assert_eq!(
        with_conditions.unsorted_out().to_vec(),
        vec![((3, 0), Some(9)), ((1, 4), None), ((2, 4), None)]
    );
    let without = Supports::from(&tr, &conditions, &effects, &links, false);
    assert_eq!(without.unsorted_out().to_vec(), vec![((3, 0), Some(9)), ((1, 4), None)]);

    let sorted = with_conditions.sort();
    assert_eq!(sorted.sorted_out().to_vec(), vec![((1, 4), None), ((2, 4), None), ((3, 0), Some(9))]);
    assert_eq!(sorted.sorted_in().to_vec(), vec![(0, 3), (4, 1), (4, 2)]);
}

#[test]
fn transitions_know_where_their_terms_are_in_their_source() {
    let (conditions, mut effects) = example();
    let tr = Transitions::new_unambiguous(&conditions, &mut effects, &[], &task_args(), &[], &[2], &[3], false);
    // condition 0 (empty source, no global argument): constants only
    let t0 = tr.get_terms_indices_in_source(0);
    assert_eq!((t0.args.clone(), t0.val, t0.op), (vec![None], Some(None), None));
    // condition 1 with effect 1, of task 0: argument Var(5) is the first argument of the task
    let t1 = tr.get_terms_indices_in_source(1);
    assert_eq!((t1.args.clone(), t1.val, t1.op), (vec![Some(0)], Some(None), None));
    // effect 2 of task 1 assigns a constant
    let t4 = tr.get_terms_indices_in_source(4);
    assert_eq!((t4.args.clone(), t4.val, t4.op), (vec![None], None, None));
    // nothing ignored: effect 3 of task 0 assigns Var(7), the third argument of the task
    let all = Transitions::new_unambiguous(&conditions, &mut effects, &[], &task_args(), &[], &[], &[], false);
    let t = all.of_effect(3).unwrap();
    let ti = all.get_terms_indices_in_source(t);
    assert_eq!((ti.args.clone(), ti.val, ti.op), (vec![Some(0)], Some(Some(1)), Some(2)));
}

#[test]
fn transitions_listed_by_condition_and_effect() {
    let (conditions, mut effects) = example();
    let tr = Transitions::new_unambiguous(&conditions, &mut effects, &[], &task_args(), &[], &[2], &[3], false);
    assert_eq!(tr.iter_of_conditions(), vec![(0, 0), (1, 1), (3, 2)]);
    assert_eq!(tr.iter_of_effects(), vec![(0, 3), (1, 1), (2, 4)]);
    let all: Vec<(usize, Transition)> = tr.iter();
    assert_eq!(all.len(), 5);
    assert_eq!(all[1], (1, Transition::CondEff(1, 1)));
}

#[test]
fn transitions_recover_closed_world_default_effects() {
    let conditions = vec![Condition {
        source: task(0),
        state_var: sv(0, vec![IntTerm::Var(5)]),
        prez: 2,
        value: IntTerm::Cst(1),
    }];
    let mut effects = vec![
        // the initial value of fluent 0 on 1 is given
        Effect { source: None, state_var: sv(0, vec![IntTerm::Cst(1)]), prez: 1, op: IntTerm::Cst(1) },
        // not ground: it sets no ground state variable
        Effect { source: None, state_var: sv(1, vec![IntTerm::Cst(0), IntTerm::Var(3)]), prez: 1, op: IntTerm::Cst(1) },
        // ignored: fluent 1 gets no default
        Effect { source: task(0), state_var: sv(1, vec![IntTerm::Var(5), IntTerm::Var(5)]), prez: 2, op: IntTerm::Cst(0) },
    ];
    let fluents = vec![
        Fluent { params: vec![Segment::new(0, 2)], ret: Segment::new(0, 1) },
        Fluent { params: vec![Segment::new(0, 1), Segment::new(0, 1)], ret: Segment::new(0, 1) },
        Fluent { params: vec![], ret: Segment::new(5, 9) },
        Fluent { params: vec![Segment::new(0, 1), Segment::new(3, 4)], ret: Segment::new(2, 3) },
    ];
    let tr = Transitions::new_unambiguous(&conditions, &mut effects, &fluents, &task_args(), &[], &[], &[2], true);
    let recovered: Vec<(usize, Vec<IntTerm>, IntTerm)> =
        effects[3..].iter().map(|e| (e.state_var.fluent, e.state_var.args.clone(), e.op)).collect();
    let c = IntTerm::Cst;
    assert_eq!(
        recovered,
        vec![
            (0, vec![c(0)], c(0)),
            (0, vec![c(2)], c(0)),
            (2, vec![], c(5)),
            (3, vec![c(0), c(3)], c(2)),
            (3, vec![c(0), c(4)], c(2)),
            (3, vec![c(1), c(3)], c(2)),
            (3, vec![c(1), c(4)], c(2)),
        ]
    );
    assert!(effects[3..].iter().all(|e| e.source.is_none() && e.prez == LIT_TRUE));
    assert_eq!(tr.len(), 10);
    assert!(!tr.are_recovered_closed_world_default_effects_empty());
    assert!(tr.is_recovered_closed_world_default(3));
    assert!(tr.is_recovered_closed_world_default(9));
    assert!(!tr.is_recovered_closed_world_default(2));
    assert!(!tr.is_recovered_closed_world_default(10));
    for e in 3..10 {
        assert_eq!(tr.get(tr.of_effect(e).unwrap()), Transition::Eff(e));
    }
    assert_eq!(tr.of_effect(2), None);
    assert_eq!(tr.of_source(None), &[1, 2, 3, 4, 5, 6, 7, 8, 9]);
    assert_eq!(tr.iter().iter().filter(|(_, t)| t.tpe() == TransitionType::Eff).count(), 9);

    // Not asked: no default is recovered.
    let mut effects2 = vec![Effect { source: None, state_var: sv(0, vec![IntTerm::Cst(1)]), prez: 1, op: IntTerm::Cst(1) }];
    let tr2 = Transitions::new_unambiguous(&conditions, &mut effects2, &fluents, &task_args(), &[], &[], &[], false);
    assert_eq!(effects2.len(), 1);
    assert!(tr2.are_recovered_closed_world_default_effects_empty());
}
