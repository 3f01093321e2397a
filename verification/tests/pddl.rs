use aries_planning::input::Input;
use aries_planning::parsing::display;
use aries_planning::parsing::pddl::{
    candidate_domain_files, parse_pddl_domain, parse_pddl_problem, read_domain, PddlFeature,
};
use aries_planning::parsing::sexpr::parse;

const TOWERS: &str = "(define (domain towers)
  (:requirements :typing :hierarchy)
  (:types disk peg - object)
  (:predicates (on ?d - disk ?p - object) (clear ?x - object) (smaller ?a ?b - object))
  (:task move-tower :parameters (?n - disk ?from ?to ?via - peg))
  (:method m-base
    :parameters (?d - disk ?from ?to - peg)
    :task (move-tower ?d ?from ?to ?via)
    :precondition (clear ?d)
    :ordered-subtasks (and (t1 (move-disk ?d ?from ?to))))
  (:method m-rec
    :parameters (?d - disk ?from ?to ?via - peg)
    :task (move-tower ?d ?from ?to ?via)
    :subtasks (and (t1 (move-tower ?d ?from ?via ?to)) (t2 (move-disk ?d ?from ?to)))
    :ordering (and (< t1 t2)))
  (:action move-disk
    :parameters (?d - disk ?from ?to - object)
    :precondition (and (on ?d ?from) (clear ?d) (clear ?to))
    :effect (and (on ?d ?to) (not (on ?d ?from)))))";

fn domain_of(text: &str) -> Result<aries_planning::parsing::pddl::Domain, String> {
    parse_pddl_domain(Input::from_str(text)).map_err(|e| e.msg)
}

#[test]
fn pddl_parsing() {
    let prog = "(begin (define r 10) (* pi (* r r)))";
    match parse(prog) {
        Ok(e) => println!("{}", e.to_string()),
        Err(s) => println!("{}", s.msg),
    }
}

#[test]
fn ddl_parsing() {
    let prog = "(begin (define r 10) (* pi (* r r)))";
    match parse(prog) {
        Ok(e) => println!("{}", e.to_string()),
        Err(s) => println!("{}", s.msg),
    }
}

#[test]
fn parsing_hddl() {
    let source = parse(TOWERS).unwrap();
    let dom = match read_domain(source) {
        Ok(dom) => dom,
        Err(e) => panic!("Could not parse: {}", e.msg),
    };
    assert_eq!(dom.name.to_string(), "towers");
    assert_eq!(dom.features, vec![PddlFeature::Typing, PddlFeature::Hierarchy]);
    assert_eq!(dom.types.len(), 2);
    assert_eq!(dom.types[1].symbol.to_string(), "peg");
    assert_eq!(dom.types[1].tpe.as_ref().unwrap().to_string(), "object");
    assert_eq!(dom.predicates.len(), 3);
    assert_eq!(dom.predicates[2].args.len(), 2);
    assert_eq!(dom.tasks.len(), 1);
    assert_eq!(dom.tasks[0].args.len(), 4);
    assert_eq!(dom.methods.len(), 2);
    assert_eq!(dom.methods[0].precondition.len(), 1);
    assert_eq!(dom.methods[0].subtask_network.ordered_tasks.len(), 1);
    assert_eq!(dom.methods[0].subtask_network.ordered_tasks[0].id.as_ref().unwrap().to_string(), "t1");
    assert_eq!(dom.methods[1].precondition.len(), 0);
    assert_eq!(dom.methods[1].subtask_network.unordered_tasks.len(), 2);
    assert_eq!(dom.methods[1].subtask_network.orderings.len(), 1);
    assert_eq!(dom.methods[1].subtask_network.orderings[0].second_task_id.to_string(), "t2");
    assert_eq!(dom.actions.len(), 1);
    assert_eq!(dom.actions[0].pre[0].to_string(), "(and (on ?d ?from) (clear ?d) (clear ?to))");
    assert_eq!(dom.actions[0].eff.len(), 1);
}

#[test]
fn typed_symbols_get_their_type() {
    let dom = domain_of("(define (domain d) (:types a b - t c))").unwrap();
    let types: Vec<(String, Option<String>)> = dom
        .types
        .iter()
        .map(|t| (t.symbol.to_string(), t.tpe.as_ref().map(|x| x.to_string())))
        .collect();
    assert_eq!(
        types,
        vec![
            ("a".to_string(), Some("t".to_string())),
            ("b".to_string(), Some("t".to_string())),
            ("c".to_string(), None)
        ]
    );
}

#[test]
fn durative_actions() {
    let dom = domain_of(
        "(define (domain d) (:durative-action go :parameters (?x) :duration (= ?duration 3) :condition (at start (p ?x)) :effect (at end (q ?x))))",
    )
    .unwrap();
    assert_eq!(dom.durative_actions.len(), 1);
    let a = &dom.durative_actions[0];
    assert_eq!(a.duration.to_string(), "(= ?duration 3)");
    assert_eq!(a.conditions.len(), 1);
    assert_eq!(a.effects.len(), 1);
    let e = domain_of("(define (domain d) (:durative-action go :parameters (?x) :parameters (?y)))").unwrap_err();
    assert_eq!(e, "Duplicated ':parameters' tag is not allowed twice");
}

#[test]
fn domain_errors() {
    assert_eq!(domain_of("(define (domain d) (:foo))").unwrap_err(), "unsupported block");
    assert_eq!(domain_of("(define (domain d) (:requirements :bar))").unwrap_err(), "Unknown feature `:bar`");
    assert_eq!(
        domain_of("(define (domain d) (:task t :parameters ()))").unwrap_err(),
        "Requires the :hierarchy feature in the requirements."
    );
    assert_eq!(
        domain_of("(define (domain d) (:types a) (:types b))").unwrap_err(),
        "More than one ':types' section definition"
    );
    assert_eq!(domain_of("(define (domain d) (:action a :foo x))").unwrap_err(), "unsupported key in action: :foo");
    let e = parse_pddl_domain(Input::from_str("(define (domain d) (:action a :effect))")).unwrap_err();
    assert_eq!(e.msg, "Unexpected end of list");
    assert_eq!(e.context, vec!["No value associated to arg: :effect".to_string(), "Invalid domain".to_string()]);
    let e = parse_pddl_domain(Input::from_str("(define (domain))")).unwrap_err();
    assert_eq!(e.context, vec!["missing name of domain".to_string(), "Invalid domain".to_string()]);
    assert_eq!(domain_of("(define (problem d))").unwrap_err(), "Expected the atom `domain`");
}

#[test]
fn problems() {
    let pb = parse_pddl_problem(Input::from_str(
        "(define (problem p1) (:domain towers) (:objects d1 d2 - disk) (:init (clear d1) (on d1 d2)) (:goal (on d2 d1)) (:htn :tasks (move-tower d1)))",
    ))
    .unwrap();
    assert_eq!(pb.problem_name.to_string(), "p1");
    assert_eq!(pb.domain_name.to_string(), "towers");
    assert_eq!(pb.objects.len(), 2);
    assert_eq!(pb.init.len(), 2);
    assert_eq!(pb.goal.len(), 1);
    assert_eq!(pb.task_network.as_ref().unwrap().unordered_tasks.len(), 1);
    let e = parse_pddl_problem(Input::from_str("(define (problem p) (:domain d) (:htn) (:htn))")).unwrap_err();
    assert_eq!(e.msg, "More than one task network specified");
    let e = parse_pddl_problem(Input::from_str("(define (problem p) (:domain d) (:htn :tasks (a) :tasks (b)))")).unwrap_err();
    assert_eq!(e.msg, "More than one set of unordered tasks.");
}

#[test]
fn features() {
    assert_eq!(PddlFeature::from_str(":durative-actions"), Ok(PddlFeature::DurativeAction));
    assert_eq!(PddlFeature::DurativeAction.to_string(), ":durative-action");
    assert_eq!(PddlFeature::from_str(":x"), Err("Unknown feature `:x`".to_string()));
}

#[test]
fn domain_file_candidates() {
    assert_eq!(
        candidate_domain_files(Some("hddl"), "p01.pb.hddl"),
        vec!["domain.hddl".to_string(), "p01.dom.hddl".to_string(), "pb-domain.hddl".to_string()]
    );
    assert_eq!(
        candidate_domain_files(Some("pddl"), "instance-1.pddl"),
        vec!["domain.pddl".to_string(), "instance-1-domain.pddl".to_string()]
    );
    assert_eq!(candidate_domain_files(None, "problem"), vec!["domain.pddl".to_string()]);
}

#[test]
fn printed_forms() {
    let d = parse_pddl_domain(Input::from_str(
        "(define (domain d) (:requirements :strips :typing) (:types a - object) (:predicates (p ?x - a)) \
         (:action act :parameters (?x - a) :precondition (p ?x) :effect (not (p ?x))))",
    ))
    .unwrap();
    assert_eq!(
        d.to_string(),
        "# Domain : d\n# Types \n  a: object\n# Predicates \n  p(?x: a)\n# Functions \n  \n# Tasks \n  \n# Methods \n  \n# Actions \n  act(?x: a)\n# Durative Actions \n  "
    );
    assert_eq!(display::to_string(&d.actions[0]), "act(?x: a)");
    let pb = parse_pddl_problem(Input::from_str(
        "(define (problem pb) (:domain d) (:objects o1 o2 - a) (:init (p o1)) (:goal (and (p o2))) \
         (:htn :ordered-tasks (and (t1 (do o1)) (t2 (do o2)))))",
    ))
    .unwrap();
    assert_eq!(
        pb.to_string(),
        "# Problem pb (domain: d)\n# Objects \n  o1: a\n  o2: a\n# Init \n  (p o1)\n# Goal \n  (and (p o2))\n# Tasks \n  (do o1)\n  (do o2)\n"
    );
}

#[test]
fn features_read_back() {
    for f in [
        PddlFeature::Strips,
        PddlFeature::Typing,
        PddlFeature::Equality,
        PddlFeature::NegativePreconditions,
        PddlFeature::Hierarchy,
        PddlFeature::MethodPreconditions,
        PddlFeature::Fluents,
    ] {
        assert_eq!(PddlFeature::from_str(&f.to_string()), Ok(f));
    }
    assert!(PddlFeature::from_str(&PddlFeature::DurativeAction.to_string()).is_err());
}

#[test]
fn names_from_regex_groups() {
    let caps = vec![
        vec![Some("p01.pb".to_string()), Some("p01".to_string()), Some("pb".to_string())],
        // group 2 did not take part
        vec![Some("x".to_string()), Some("x".to_string()), None],
        vec![Some("q.pddl".to_string()), Some("q".to_string()), Some("pddl".to_string())],
    ];
    let mut out = vec!["first".to_string()];
    aries_planning::parsing::pddl::push_names_from_groups(&caps, 1, ".dom.", 2, &mut out);
    assert_eq!(out, vec!["first".to_string(), "p01.dom.pb".to_string(), "q.dom.pddl".to_string()]);
}

