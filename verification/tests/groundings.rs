use aries_planning::timelines::groundings::{
    is_sorted_and_no_dupes, IntTerm, SourceEntry, SourcesGroundingsInfo, StateVarsGroundingsInfo, TaskId, TermsGroundingsInfo,
    TransitionGroundingId,
};

#[test]
fn test_sources_groundings_addition() {
    let mut sources_groundings = SourcesGroundingsInfo::default();

    sources_groundings.post_ground_source(Some(TaskId::from_int(1)), &vec![1000, 50, 40]);
    sources_groundings.post_ground_source(Some(TaskId::from_int(1)), &vec![1000, 50, 30]);

    sources_groundings.post_ground_source(Some(TaskId::from_int(0)), &vec![2, 10, 400, 300]);

    sources_groundings.post_ground_source(None, &vec![]);

    sources_groundings.post_ground_source(Some(TaskId::from_int(0)), &vec![2, 10, 401, 300]);
    sources_groundings.post_ground_source(Some(TaskId::from_int(0)), &vec![2, 10, 400, 301]);
    sources_groundings.post_ground_source(Some(TaskId::from_int(0)), &vec![2, 10, 401, 301]);

    assert!(
        sources_groundings.get(None) == &[3][..]
            && sources_groundings.get(Some(TaskId::from_int(0))) == &[2, 4, 5, 6][..]
            && sources_groundings.get(Some(TaskId::from_int(1))) == &[0, 1][..]
    );
}

#[test]
fn sources_groundings_of_unknown_task_are_empty() {
    let mut sources_groundings = SourcesGroundingsInfo::default();
    assert_eq!(sources_groundings.post_ground_source(Some(TaskId::from_int(3)), &vec![1]), 0);
    assert!(sources_groundings.get(Some(TaskId::from_int(7))).is_empty());
    assert!(sources_groundings.get(Some(TaskId::from_int(0))).is_empty());
    assert!(sources_groundings.get(None).is_empty());
    assert_eq!(sources_groundings.get(Some(TaskId::from_int(3))), &[0][..]);
}

#[test]
fn test_state_vars_groundings() {
    let mut state_vars_groundings = StateVarsGroundingsInfo::default();

    assert_eq!(state_vars_groundings.post_ground_state_var(&"a".to_string(), &[1, 2, 3, 4]), 0);
    assert_eq!(state_vars_groundings.post_ground_state_var(&"b".to_string(), &[1, 2, 3, 4]), 1);
    assert_eq!(state_vars_groundings.post_ground_state_var(&"b".to_string(), &[1, 2, 3, 5]), 2);
    assert_eq!(state_vars_groundings.post_ground_state_var(&"a".to_string(), &[1, 2, 3, 4]), 0);
}

#[test]
fn test_terms_groundings() {
    let mut terms = TermsGroundingsInfo::default();
    let g = |sv: usize, val: Option<i32>, op: Option<i32>| TransitionGroundingId {
        state_var_grounding_id: sv,
        val_assignment: val,
        op_assignment: op,
    };
    terms.post_for_ground_transition(IntTerm::Var(2), 5, 1, g(0, None, Some(3)));
    terms.post_for_ground_transition(IntTerm::Var(1), 7, 0, g(1, Some(1), Some(2)));
    terms.post_for_ground_transition(IntTerm::Var(1), 7, 0, g(1, Some(1), Some(2)));
    terms.post_for_ground_source(IntTerm::Var(4), 2, Some(TaskId::from_int(1)), 3);
    terms.post_for_ground_source(IntTerm::Var(4), 2, None, 0);
    terms.post_for_ground_source(IntTerm::Var(3), 9, None, 1);
    terms.sort();

    let trans = terms.iter_sorted_all_for_transitions();
    assert_eq!(trans.len(), 2);
    assert!(trans[0].0 == IntTerm::Var(1) && trans[0].1 == 7);
    assert!(trans[1].0 == IntTerm::Var(2) && trans[1].1 == 5);

    let srcs = terms.iter_sorted_all_for_sources();
    assert_eq!(srcs.len(), 3);
    assert!(srcs[0].0 == IntTerm::Var(3));
    assert!(srcs[1].2 == None && srcs[2].2 == Some(TaskId::from_int(1)));

    let assignments = terms.iter_sorted_all_only_assignments();
    assert!(assignments == vec![(IntTerm::Var(3), 9), (IntTerm::Var(4), 2)]);

    // a second round merges with what is already there
    terms.post_for_ground_source(IntTerm::Var(0), 1, None, 0);
    terms.sort();
    assert_eq!(terms.iter_sorted_all_for_sources().len(), 4);
    assert!(terms.iter_sorted_all_for_sources()[0].0 == IntTerm::Var(0));
}

#[test]
fn terms_and_transition_kinds() {
    assert!(IntTerm::int_cst(4) == IntTerm::Cst(4));
    assert!(IntTerm::int_cst(4).is_cst());
    assert!(!IntTerm::Var(2).is_cst());
    let pure = TransitionGroundingId { state_var_grounding_id: 0, val_assignment: None, op_assignment: Some(1) };
    let assign = TransitionGroundingId { state_var_grounding_id: 0, val_assignment: Some(3), op_assignment: Some(1) };
    assert!(pure.is_pure_eff());
    assert!(!assign.is_pure_eff());
}

#[test]
fn sorted_entries() {
    let t0 = Some(TaskId::from_int(0));
    // constants before variables, then by value, by source (none first) and by grounding
    let sorted: [SourceEntry; 5] = [
        (IntTerm::Cst(1), 0, None, 0),
        (IntTerm::Cst(1), 0, t0, 0),
        (IntTerm::Cst(1), 0, t0, 2),
        (IntTerm::Cst(2), 5, None, 0),
        (IntTerm::Var(0), 0, None, 0),
    ];
    assert!(is_sorted_and_no_dupes(&sorted));
    assert!(is_sorted_and_no_dupes(&sorted[..0]));
    let dupes: [SourceEntry; 2] = [(IntTerm::Cst(1), 0, t0, 2), (IntTerm::Cst(1), 0, t0, 2)];
    assert!(!is_sorted_and_no_dupes(&dupes));
    let unsorted: [SourceEntry; 2] = [(IntTerm::Var(0), 0, None, 0), (IntTerm::Cst(1), 0, None, 0)];
    assert!(!is_sorted_and_no_dupes(&unsorted));
}
