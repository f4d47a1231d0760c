//! Round-trip tests for the snapshot codec.

use intersections::{
    CarID, IntersectionSimState, MapModel, PedestrianID, Request, SignalState, TurnID,
    TurnPriority,
};

fn mixed_map() -> MapModel {
    // Intersection 0 is a stop sign with turns 0 and 1; intersection 1 is
    // signalized with turns 2 and 3. No conflicts.
    MapModel::new(
        vec![0, 0, 1, 1],
        vec![200, 150, 120, 80],
        vec![
            TurnPriority::Yield,
            TurnPriority::Stop,
            TurnPriority::Yield,
            TurnPriority::Yield,
        ],
        vec![vec![false; 4], vec![false; 4], vec![false; 4], vec![false; 4]],
        vec![false, true],
    )
    .unwrap()
}

#[test]
fn round_trip_reproduces_contents_and_order() {
    let map = mixed_map();
    let mut sim = IntersectionSimState::new(&map);
    // Populate waiting, pending and accepted state across both regimes.
    assert!(sim
        .submit_request(Request::for_car(CarID(3), TurnID(0)), 2, &map)
        .is_ok());
    assert!(sim
        .submit_request(Request::for_ped(PedestrianID(1), TurnID(1)), 2, &map)
        .is_ok());
    assert!(sim
        .submit_request(Request::for_car(CarID(9), TurnID(2)), 2, &map)
        .is_ok());
    assert!(sim
        .submit_request(Request::for_car(CarID(4), TurnID(3)), 2, &map)
        .is_ok());
    let signals = vec![
        SignalState { cycle: Vec::new(), remaining: 0 },
        SignalState { cycle: vec![TurnID(2)], remaining: 100 },
    ];
    sim.step(3, &map, &signals);

    let words = sim.encode();
    let restored = IntersectionSimState::decode(&words).expect("a snapshot restores");
    // Byte-identical canonical ordering and content.
    assert_eq!(restored.encode(), words);
    // The restored state answers queries exactly as the original.
    assert_eq!(
        restored.request_granted(Request::for_car(CarID(3), TurnID(0)), &map),
        sim.request_granted(Request::for_car(CarID(3), TurnID(0)), &map)
    );
    assert_eq!(
        restored.request_granted(Request::for_car(CarID(9), TurnID(2)), &map),
        sim.request_granted(Request::for_car(CarID(9), TurnID(2)), &map)
    );
    // And the simulation can continue from it.
    let mut resumed = restored;
    resumed.step(20, &map, &signals);
    let mut original = sim;
    original.step(20, &map, &signals);
    assert_eq!(resumed.encode(), original.encode());
}

#[test]
fn round_trip_of_the_idle_registry() {
    let map = mixed_map();
    let sim = IntersectionSimState::new(&map);
    let words = sim.encode();
    let restored = IntersectionSimState::decode(&words).expect("an idle snapshot restores");
    assert_eq!(restored.encode(), words);
}

#[test]
fn decode_rejects_corrupt_streams() {
    let map = mixed_map();
    let mut sim = IntersectionSimState::new(&map);
    assert!(sim
        .submit_request(Request::for_car(CarID(3), TurnID(0)), 2, &map)
        .is_ok());
    let mut words = sim.encode();
    // Truncated stream.
    let mut truncated = words.clone();
    truncated.pop();
    assert!(IntersectionSimState::decode(&truncated).is_none());
    // A regime tag that does not exist.
    words[2] = 7;
    assert!(IntersectionSimState::decode(&words).is_none());
    // The empty stream.
    assert!(IntersectionSimState::decode(&Vec::new()).is_none());
}
