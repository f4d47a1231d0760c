//! Scenario tests for the admission engine.

use intersections::{
    CarID, IntersectionSimState, MapModel, PedestrianID, Request, SignalState, TurnID,
    TurnPriority, WAIT_AT_STOP_SIGN,
};

/// One intersection with two turns of the given priorities; the conflict
/// matrix is given row by row. Lengths are twenty meters.
fn one_intersection(
    priorities: Vec<TurnPriority>,
    conflict: Vec<Vec<bool>>,
    has_signal: bool,
) -> MapModel {
    let n = priorities.len();
    MapModel::new(
        vec![0; n],
        vec![200; n],
        priorities,
        conflict,
        vec![has_signal],
    )
    .unwrap()
}

fn no_signals() -> Vec<SignalState> {
    vec![SignalState { cycle: Vec::new(), remaining: 0 }]
}

#[test]
fn stop_sign_priority_then_dwell() {
    // Two mutually conflicting turns; T1 is ordinary, T2 must stop.
    let map = one_intersection(
        vec![TurnPriority::Yield, TurnPriority::Stop],
        vec![vec![false, true], vec![true, false]],
        false,
    );
    let mut sim = IntersectionSimState::new(&map);
    let r1 = Request::for_car(CarID(1), TurnID(0));
    let r2 = Request::for_car(CarID(2), TurnID(1));
    assert!(sim.submit_request(r1, 0, &map).is_ok());
    assert!(sim.submit_request(r2, 0, &map).is_ok());
    sim.step(1, &map, &no_signals());
    // T1 is granted; T2 keeps waiting: it conflicts with an accepted turn,
    // and its dwell is not over either.
    assert!(sim.request_granted(r1, &map));
    assert!(!sim.request_granted(r2, &map));
    // Even after the dwell has elapsed, T2 stays blocked while Car1 is inside.
    sim.step(WAIT_AT_STOP_SIGN + 5, &map, &no_signals());
    assert!(!sim.request_granted(r2, &map));
    // Car1 crosses and leaves; the slot frees and T2 is granted.
    assert!(sim.on_enter(r1, &map).is_ok());
    assert!(sim.on_exit(r1, &map).is_ok());
    assert!(!sim.request_granted(r1, &map));
    sim.step(WAIT_AT_STOP_SIGN + 6, &map, &no_signals());
    assert!(sim.request_granted(r2, &map));
}

#[test]
fn dwell_blocks_even_without_conflicts() {
    // One Stop-category turn, nothing else: still not admitted before the
    // dwell of one and a half seconds is over.
    let map = one_intersection(vec![TurnPriority::Stop], vec![vec![false]], false);
    let mut sim = IntersectionSimState::new(&map);
    let r = Request::for_car(CarID(7), TurnID(0));
    assert!(sim.submit_request(r, 0, &map).is_ok());
    sim.step(WAIT_AT_STOP_SIGN - 1, &map, &no_signals());
    assert!(!sim.request_granted(r, &map));
    sim.step(WAIT_AT_STOP_SIGN, &map, &no_signals());
    assert!(sim.request_granted(r, &map));
}

#[test]
fn dwell_clock_is_not_reset_by_resubmission() {
    let map = one_intersection(vec![TurnPriority::Stop], vec![vec![false]], false);
    let mut sim = IntersectionSimState::new(&map);
    let r = Request::for_car(CarID(7), TurnID(0));
    assert!(sim.submit_request(r, 0, &map).is_ok());
    // Resubmitting at a later tick must not restart the wait.
    assert!(sim.submit_request(r, WAIT_AT_STOP_SIGN - 1, &map).is_ok());
    sim.step(WAIT_AT_STOP_SIGN, &map, &no_signals());
    assert!(sim.request_granted(r, &map));
}

#[test]
fn higher_priority_waiting_blocks_lower() {
    // Conflicting turns: T0 is Yield, T1 is Priority. While the Priority
    // request waits, the Yield one is never promoted.
    let map = one_intersection(
        vec![TurnPriority::Yield, TurnPriority::Priority],
        vec![vec![false, true], vec![true, false]],
        false,
    );
    let mut sim = IntersectionSimState::new(&map);
    let lower = Request::for_car(CarID(1), TurnID(0));
    let higher = Request::for_car(CarID(2), TurnID(1));
    assert!(sim.submit_request(lower, 0, &map).is_ok());
    assert!(sim.submit_request(higher, 0, &map).is_ok());
    sim.step(1, &map, &no_signals());
    assert!(sim.request_granted(higher, &map));
    assert!(!sim.request_granted(lower, &map));
}

#[test]
fn non_conflicting_requests_granted_together() {
    // Two turns that never conflict are both accepted in the same step.
    let map = one_intersection(
        vec![TurnPriority::Yield, TurnPriority::Yield],
        vec![vec![false, false], vec![false, false]],
        false,
    );
    let mut sim = IntersectionSimState::new(&map);
    let r1 = Request::for_car(CarID(1), TurnID(0));
    let r2 = Request::for_ped(PedestrianID(1), TurnID(1));
    assert!(sim.submit_request(r1, 0, &map).is_ok());
    assert!(sim.submit_request(r2, 0, &map).is_ok());
    sim.step(1, &map, &no_signals());
    assert!(sim.request_granted(r1, &map));
    assert!(sim.request_granted(r2, &map));
}

#[test]
fn signal_grants_only_inside_cycle_window() {
    // A signalized intersection. Turn 0 is in the active cycle with ten
    // seconds (a hundred ticks) remaining: its twenty meters at ten meters
    // per second cross in two seconds, so it is granted the same tick.
    // Turn 1 is not in the cycle and stays pending regardless of time.
    let map = one_intersection(
        vec![TurnPriority::Yield, TurnPriority::Yield],
        vec![vec![false, false], vec![false, false]],
        true,
    );
    let mut sim = IntersectionSimState::new(&map);
    let in_cycle = Request::for_car(CarID(1), TurnID(0));
    let off_cycle = Request::for_car(CarID(2), TurnID(1));
    assert!(sim.submit_request(in_cycle, 0, &map).is_ok());
    assert!(sim.submit_request(off_cycle, 0, &map).is_ok());
    let signals = vec![SignalState { cycle: vec![TurnID(0)], remaining: 100 }];
    sim.step(1, &map, &signals);
    assert!(sim.request_granted(in_cycle, &map));
    assert!(!sim.request_granted(off_cycle, &map));
}

#[test]
fn signal_defers_request_that_cannot_clear_in_time() {
    let map = one_intersection(vec![TurnPriority::Yield], vec![vec![false]], true);
    let mut sim = IntersectionSimState::new(&map);
    let r = Request::for_car(CarID(1), TurnID(0));
    assert!(sim.submit_request(r, 0, &map).is_ok());
    // Crossing takes two seconds; exactly two seconds remaining is not
    // strictly enough.
    let tail = vec![SignalState { cycle: vec![TurnID(0)], remaining: 20 }];
    sim.step(1, &map, &tail);
    assert!(!sim.request_granted(r, &map));
    // With twenty-one ticks remaining it clears.
    let enough = vec![SignalState { cycle: vec![TurnID(0)], remaining: 21 }];
    sim.step(2, &map, &enough);
    assert!(sim.request_granted(r, &map));
}

#[test]
fn submission_is_idempotent_and_order_independent() {
    let map = one_intersection(
        vec![TurnPriority::Yield, TurnPriority::Yield],
        vec![vec![false, false], vec![false, false]],
        false,
    );
    let r1 = Request::for_car(CarID(1), TurnID(0));
    let r2 = Request::for_car(CarID(2), TurnID(1));

    let mut a = IntersectionSimState::new(&map);
    assert!(a.submit_request(r1, 3, &map).is_ok());
    assert!(a.submit_request(r2, 3, &map).is_ok());

    let mut b = IntersectionSimState::new(&map);
    assert!(b.submit_request(r2, 3, &map).is_ok());
    assert!(b.submit_request(r1, 3, &map).is_ok());
    assert!(b.submit_request(r1, 3, &map).is_ok());
    assert!(b.submit_request(r2, 3, &map).is_ok());

    // Same canonical state, word for word.
    assert_eq!(a.encode(), b.encode());

    a.step(4, &map, &no_signals());
    b.step(4, &map, &no_signals());
    assert_eq!(a.encode(), b.encode());
    assert!(a.request_granted(r1, &map) && a.request_granted(r2, &map));
}

#[test]
fn resubmission_for_a_different_turn_while_accepted_is_an_error() {
    let map = one_intersection(
        vec![TurnPriority::Yield, TurnPriority::Yield],
        vec![vec![false, false], vec![false, false]],
        false,
    );
    let mut sim = IntersectionSimState::new(&map);
    let r = Request::for_car(CarID(1), TurnID(0));
    assert!(sim.submit_request(r, 0, &map).is_ok());
    sim.step(1, &map, &no_signals());
    assert!(sim.request_granted(r, &map));
    // Same turn again: a no-op, not an error.
    assert!(sim.submit_request(r, 2, &map).is_ok());
    // A different turn while accepted: the protocol violation.
    let other = Request::for_car(CarID(1), TurnID(1));
    assert!(sim.submit_request(other, 2, &map).is_err());
}

#[test]
fn enter_and_exit_require_a_matching_grant() {
    let map = one_intersection(vec![TurnPriority::Yield], vec![vec![false]], false);
    let mut sim = IntersectionSimState::new(&map);
    let r = Request::for_car(CarID(1), TurnID(0));
    assert!(sim.on_enter(r, &map).is_err());
    assert!(sim.on_exit(r, &map).is_err());
    assert!(sim.submit_request(r, 0, &map).is_ok());
    assert!(sim.on_enter(r, &map).is_err());
    sim.step(1, &map, &no_signals());
    assert!(sim.on_enter(r, &map).is_ok());
    assert!(sim.on_exit(r, &map).is_ok());
    assert!(sim.on_exit(r, &map).is_err());
}

#[test]
fn malformed_map_data_is_rejected_at_construction() {
    // Asymmetric conflict matrix.
    assert!(MapModel::new(
        vec![0, 0],
        vec![200, 200],
        vec![TurnPriority::Yield, TurnPriority::Yield],
        vec![vec![false, true], vec![false, false]],
        vec![false],
    )
    .is_none());
    // Parent intersection out of range.
    assert!(MapModel::new(
        vec![1],
        vec![200],
        vec![TurnPriority::Yield],
        vec![vec![false]],
        vec![false],
    )
    .is_none());
    // Ragged matrix row.
    assert!(MapModel::new(
        vec![0, 0],
        vec![200, 200],
        vec![TurnPriority::Yield, TurnPriority::Yield],
        vec![vec![false], vec![false, false]],
        vec![false],
    )
    .is_none());
}
