use interception_core::ControlState;
use interception_core::determine_next_control_state;
use interception_core::update_defender_states;

// The control-state priority, on the predicate values that the reference
// geometries produce: an Apollonian circle at (2,0) r=3 with the intruder at
// (6,0) and the zone Circle((0,0),2) is crossed by the intruder-to-centre
// segment and touches the zone; one at (3,0) r=2 with the intruder at
// (10,10) touches the zone but the segment misses it; one at (10,0) r=1
// does neither.
#[test]
fn test_control_state_determination() {
    let intercept_state = determine_next_control_state(&ControlState::Travel, true, true);
    assert_eq!(intercept_state, ControlState::Intercept);

    let engage_state = determine_next_control_state(&ControlState::Travel, false, true);
    assert_eq!(engage_state, ControlState::Engage);

    let travel_state = determine_next_control_state(&ControlState::Travel, false, false);
    assert_eq!(travel_state, ControlState::Travel);

    let stay_intercept = determine_next_control_state(&ControlState::Intercept, false, false);
    assert_eq!(stay_intercept, ControlState::Intercept);
}

#[test]
fn test_engage_to_intercept() {
    let next = determine_next_control_state(&ControlState::Engage, true, true);
    assert_eq!(next, ControlState::Intercept);
    let next_no_zone = determine_next_control_state(&ControlState::Engage, true, false);
    assert_eq!(next_no_zone, ControlState::Intercept);
}

#[test]
fn test_engage_falls_back_to_travel() {
    let next = determine_next_control_state(&ControlState::Engage, false, false);
    assert_eq!(next, ControlState::Travel);
}

#[test]
fn test_update_defender_states_pads_with_travel() {
    let mut states: Vec<ControlState> = Vec::new();
    let path_hits = vec![false, false, true];
    let zone_meets = vec![false, true, false];
    update_defender_states(&mut states, &path_hits, &zone_meets);
    assert_eq!(states.len(), 3);
    assert_eq!(states[0], ControlState::Travel);
    assert_eq!(states[1], ControlState::Engage);
    assert_eq!(states[2], ControlState::Intercept);
}

#[test]
fn test_update_defender_states_never_shrinks() {
    let mut states = vec![ControlState::Intercept, ControlState::Engage, ControlState::Travel];
    let path_hits = vec![false];
    let zone_meets = vec![false];
    update_defender_states(&mut states, &path_hits, &zone_meets);
    assert_eq!(states.len(), 3);
    assert_eq!(states[0], ControlState::Intercept);
    assert_eq!(states[1], ControlState::Engage);
    assert_eq!(states[2], ControlState::Travel);
}

#[test]
fn test_intercept_latch_across_ticks() {
    let mut states = vec![ControlState::Travel];
    // First tick: the intruder's segment crosses the circle.
    update_defender_states(&mut states, &vec![true], &vec![false]);
    assert_eq!(states[0], ControlState::Intercept);
    // Next tick the predicate would demote to Travel; the state stays.
    update_defender_states(&mut states, &vec![false], &vec![false]);
    assert_eq!(states[0], ControlState::Intercept);
    // And stays even when only the zone contact holds.
    update_defender_states(&mut states, &vec![false], &vec![true]);
    assert_eq!(states[0], ControlState::Intercept);
}
