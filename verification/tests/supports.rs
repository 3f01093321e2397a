use aries_planning::timelines::groundings::{TaskId, TransitionGroundingId};
use aries_planning::timelines::supports::{
    SupportsGroundingsInfo, SupportsSorted, TransitionsGroundingsInfo,
};

fn tg(sv: usize, val: Option<i32>, op: Option<i32>) -> TransitionGroundingId {
    TransitionGroundingId { state_var_grounding_id: sv, val_assignment: val, op_assignment: op }
}

/// Transition 0: initial effect (empty source) setting state variable 0 to 5.
/// Transition 1: condition of task 0 on state variable 0, read as 5 or 6.
/// Transition 2: transition of task 1 on state variable 1, from 3 to 4.
fn example() -> (TransitionsGroundingsInfo, [TransitionGroundingId; 4]) {
    let g0 = tg(0, None, Some(5));
    let g1 = tg(0, Some(5), None);
    let g1b = tg(0, Some(6), None);
    let g2 = tg(1, Some(3), Some(4));
    let mut info = TransitionsGroundingsInfo::default();
    info.post_ground_transition(2, g2, Some(TaskId::from_int(1)), 0);
    info.post_ground_transition(1, g1b, Some(TaskId::from_int(0)), 1);
    info.post_ground_transition(0, g0, None, 0);
    info.post_ground_transition(1, g1, Some(TaskId::from_int(0)), 0);
    info.post_ground_transition(1, g1, Some(TaskId::from_int(0)), 2);
    info.sort_for_all();
    (info, [g0, g1, g1b, g2])
}

#[test]
fn transitions_groundings_are_sorted_by_source() {
    let (info, [g0, g1, g1b, g2]) = example();
    let sourced: Vec<_> = info.iter_all_sourced().to_vec();
    assert_eq!(
        sourced,
        vec![
            (None, 0, g0, 0),
            (Some(TaskId::from_int(0)), 1, g1, 0),
            (Some(TaskId::from_int(0)), 1, g1, 2),
            (Some(TaskId::from_int(0)), 1, g1b, 1),
            (Some(TaskId::from_int(1)), 2, g2, 0),
        ]
    );
    assert_eq!(info.iter_all_unsourced(), vec![(0, g0), (1, g1), (1, g1b), (2, g2)]);
    assert_eq!(info.groundings_of(1), vec![g1, g1b]);
    assert_eq!(info.groundings_of(0), vec![g0]);
    assert_eq!(info.groundings_of(7), vec![]);
}

#[test]
fn ground_supports_match_values_and_state_variables() {
    let (info, [g0, g1, g1b, g2]) = example();
    let supports = SupportsSorted {
        sorted_out: vec![((0, 1), None), ((1, 0), Some(7)), ((2, 1), None)],
        sorted_in: vec![(0, 1), (1, 0), (1, 2)],
    };
    let res = SupportsGroundingsInfo::from(&supports, &info);
    // 0 -> 1: the initial value 5 is read by the grounding reading 5 only.
    // 1 -> 0: a pure effect can follow any grounding on its state variable.
    // 2 -> 1: different state variables, no compatible pair.
    assert_eq!(
        res.iter_all().to_vec(),
        vec![
            (0, 1, Some((g0, g1))),
            (1, 0, Some((g1, g0))),
            (1, 0, Some((g1b, g0))),
            (2, 1, None),
        ]
    );
    assert_eq!(
        res.iter_out_all().to_vec(),
        vec![(0, g0, (1, g1)), (1, g1, (0, g0)), (1, g1b, (0, g0))]
    );
    // The initial effect awaits no support; the groundings of 1 reading 6 and of 2 have none.
    assert_eq!(
        res.iter_in_all().to_vec(),
        vec![
            (0, g0, Some((1, g1))),
            (0, g0, Some((1, g1b))),
            (1, g1, Some((0, g0))),
            (1, g1b, None),
            (2, g2, None),
        ]
    );
}

#[test]
fn ground_supports_of_no_support() {
    let (info, [g0, g1, g1b, g2]) = example();
    let supports = SupportsSorted { sorted_out: vec![], sorted_in: vec![] };
    let res = SupportsGroundingsInfo::from(&supports, &info);
    assert!(res.iter_all().is_empty());
    assert!(res.iter_out_all().is_empty());
    assert_eq!(res.iter_in_all().to_vec(), vec![(1, g1, None), (1, g1b, None), (2, g2, None)]);
    let _ = g0;
}
