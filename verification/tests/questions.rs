use aries_planning::explain::question::{selectionquestion, Question};
use aries_planning::classical::state::{Lit, Op, Operator, Operators, SVId, State};
use aries_planning::classical::GroundProblem;
use aries_planning::explain::explain::{explicationmenacequestion, explicationmenacequestiondetail, matricesupport};
use aries_planning::explain::matrix::IntMatrix;
use aries_planning::explain::question::{
    achievegoal, inverseweightway, inverseweightwayetape, isnecessary, isnecessarydetail, menacefromto, parallelisable,
    parallelisablebool, supportedby, supportof, waybetween, waybetweenbool, weightwayetape,
};
use aries_planning::explain::state2::{
    ciblenonp, ciblenonpad, newot, newresume, originenonp, originenonpad, pad_detail, Parallelisable,
    Parallelisabledetail,
};

fn lit(v: usize, val: bool) -> Lit {
    Lit::new(SVId { id: v }, val)
}

/// Step 0 makes v0 true, step 1 needs it and makes v1 true, step 2 needs v1 and makes the goal
/// v2 true, step 3 only sets v0 back to false.
fn chain() -> (Vec<Op>, GroundProblem) {
    let mut ops = Operators::new();
    let o0 = ops.push(Operator { name: vec![10], precond: vec![], effects: vec![lit(0, true)] });
    let o1 = ops.push(Operator { name: vec![11], precond: vec![lit(0, true)], effects: vec![lit(1, true)] });
    let o2 = ops.push(Operator { name: vec![12], precond: vec![lit(1, true)], effects: vec![lit(2, true)] });
    let o3 = ops.push(Operator { name: vec![13], precond: vec![], effects: vec![lit(0, false)] });
    let ground = GroundProblem { initial_state: State::new(3), operators: ops, goals: vec![lit(2, true)] };
    (vec![o0, o1, o2, o3], ground)
}

#[test]
fn direct_supports() {
    let (plan, ground) = chain();
    let m = matricesupport(&plan, &ground);
    let r = |k: usize| newresume(plan[k], k as i32);
    assert_eq!(supportedby(1, &m, &plan), vec![r(0)]);
    assert_eq!(supportedby(0, &m, &plan), vec![]);
    assert_eq!(supportof(1, &m, &plan), vec![r(2)]);
    // the goal column is not a step of the plan
    assert_eq!(supportof(2, &m, &plan), vec![]);
    assert!(achievegoal(2, &m));
    assert!(!achievegoal(1, &m));
}

#[test]
fn necessary_steps() {
    let (plan, ground) = chain();
    let m = matricesupport(&plan, &ground);
    let r = |k: usize| newresume(plan[k], k as i32);
    assert!(isnecessary(0, &m, &plan, &ground));
    assert!(isnecessary(2, &m, &plan, &ground));
    assert!(!isnecessary(3, &m, &plan, &ground));
    assert_eq!(isnecessarydetail(0, &m, &plan, &ground), Some(vec![r(2), r(1)]));
    // a step that supports a goal itself has no chain
    assert_eq!(isnecessarydetail(2, &m, &plan, &ground), None);
    assert_eq!(isnecessarydetail(3, &m, &plan, &ground), None);
}

#[test]
fn ways_between_steps() {
    let (plan, ground) = chain();
    let m = matricesupport(&plan, &ground);
    let r = |k: usize| newresume(plan[k], k as i32);
    assert_eq!(waybetween(0, 2, &m, &plan), Some(vec![r(2), r(1)]));
    assert_eq!(waybetween(2, 0, &m, &plan), Some(vec![r(2), r(1)]));
    assert_eq!(waybetween(2, 1, &m, &plan), Some(vec![r(2)]));
    assert!(waybetweenbool(2, 0, &m, &plan));
    assert!(!waybetweenbool(3, 0, &m, &plan));
    // a step is not linked to itself
    assert!(!waybetweenbool(1, 1, &m, &plan));
    // a step out of the plan
    assert!(!waybetweenbool(9, 0, &m, &plan));
}

#[test]
fn weighted_ways() {
    let (plan, ground) = chain();
    let m = matricesupport(&plan, &ground);
    assert!(inverseweightway(2, 0, Some(11), &m, &plan, &ground, 5));
    assert!(!inverseweightway(3, 0, Some(11), &m, &plan, &ground, 5));
    assert!(weightwayetape(2, 0, 1, &m, &plan, &ground, 5));
    assert!(inverseweightwayetape(2, 0, 1, &m, &plan, &ground, 5));
    assert!(!weightwayetape(3, 0, 1, &m, &plan, &ground, 5));
}

#[test]
fn threats_between_two_steps() {
    let (plan, ground) = chain();
    let support = matricesupport(&plan, &ground);
    let mut menace = IntMatrix::from_diagonal_element(6, 6, 0);
    menace.set(3, 1, 1);
    menace.set(1, 3, -1);
    assert!(menacefromto(3, 1, &menace));
    assert!(!menacefromto(1, 2, &menace));
    assert!(explicationmenacequestion(&plan, &menace, &support, 3, 1));
    assert!(explicationmenacequestion(&plan, &menace, &support, 1, 3));
    assert!(!explicationmenacequestion(&plan, &menace, &support, 0, 3));
    assert!(!explicationmenacequestion(&plan, &menace, &support, -1, 3));
    assert!(!explicationmenacequestion(&plan, &menace, &support, 3, 7));
    assert_eq!(explicationmenacequestiondetail(&plan, &menace, &support, 0, 3), None);
}

#[test]
fn ordered_pairs_and_parallelism() {
    let (plan, _) = chain();
    let ot = newot(plan[3], 3, plan[0], 0);
    assert_eq!(ot.premiereetape(), (plan[0], 0));
    assert_eq!(ot.deuxiemeetape(), (plan[3], 3));
    assert_eq!(ot.etape(), (3, 0));

    assert_eq!(originenonp(Parallelisable::Non_menace { origine: 1, vers: 2 }), 1);
    assert_eq!(ciblenonp(Parallelisable::Non_support { origine: 1, vers: 2 }), 2);
    assert_eq!(ciblenonp(Parallelisable::Oui), 0);
    assert_eq!(originenonpad(Parallelisabledetail::Menace_Avant { origine: 4, vers: 5, supportconcern: Some(1) }), 4);
    assert_eq!(ciblenonpad(Parallelisabledetail::Support_Direct { origine: 4, vers: 5 }), 5);
    assert_eq!(originenonpad(Parallelisabledetail::Oui), 0);
    assert_eq!(
        pad_detail(Parallelisabledetail::Support_Indirect { origine: 0, vers: 2, chemin: vec![newresume(plan[1], 1)] }),
        vec![Some(1)]
    );
    assert_eq!(pad_detail(Parallelisabledetail::Menace_Avant { origine: 0, vers: 2, supportconcern: None }), vec![None]);
    assert_eq!(pad_detail(Parallelisabledetail::Oui), vec![None]);
}

#[test]
fn steps_in_parallel() {
    let (plan, ground) = chain();
    let support = matricesupport(&plan, &ground);
    let mut menace = IntMatrix::from_diagonal_element(6, 6, 0);
    menace.set(0, 3, -1);
    let r = |k: usize| newresume(plan[k], k as i32);
    // a direct support
    assert!(matches!(
        parallelisable(1, 0, &support, &menace, &plan, &ground),
        Parallelisabledetail::Support_Direct { origine: 0, vers: 1 }
    ));
    assert!(parallelisablebool(1, 0, &support, &menace, &plan, &ground) == Parallelisable::Non_support { origine: 0, vers: 1 });
    // a chain of supports, read from the later step
    match parallelisable(2, 0, &support, &menace, &plan, &ground) {
        Parallelisabledetail::Support_Indirect { origine, vers, chemin } => {
            assert_eq!((origine, vers), (2, 0));
            assert_eq!(chemin, vec![r(2), r(1)]);
        },
        _ => panic!("a chain of supports was expected"),
    }
    // a threat
    assert!(matches!(
        parallelisable(3, 0, &support, &menace, &plan, &ground),
        Parallelisabledetail::Menace_Apres { origine: 0, vers: 3 }
    ));
    assert!(parallelisablebool(0, 3, &support, &menace, &plan, &ground) == Parallelisable::Non_menace { origine: 0, vers: 3 });
    // nothing keeps them apart
    assert!(matches!(parallelisable(1, 3, &support, &menace, &plan, &ground), Parallelisabledetail::Oui));
    assert!(parallelisablebool(3, 1, &support, &menace, &plan, &ground) == Parallelisable::Oui);
}

#[test]
fn question_words_select_the_question() {
    type Q = Question;
    let sel = selectionquestion;
    assert_eq!(sel("0"), Q::NoQuestion);
    assert_eq!(sel("1"), Q::SupportBy);
    assert_eq!(sel("3"), Q::Menace);
    assert_eq!(sel("4"), Q::Necessarybool);
    assert_eq!(sel("4d"), Q::Necessary);
    assert_eq!(sel("5d"), Q::Waybetween);
    assert_eq!(sel("6d"), Q::Parallelisable);
    assert_eq!(sel("8s"), Q::Synchronisation);
    assert_eq!(sel("synchro"), Q::Synchronisation);
    assert_eq!(sel("Synchro"), Q::Synchronisation);
    assert_eq!(sel("synchronisation"), Q::Synchronisation);
    assert_eq!(sel("8b"), Q::Betweeness);
    assert_eq!(sel("9"), Q::Weigthway);
    assert_eq!(sel("10"), Q::Qundefined);
    assert_eq!(sel(""), Q::Qundefined);
}
