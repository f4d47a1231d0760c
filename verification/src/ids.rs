//! Identifiers for agents and turns, and the request type that pairs them.
//!
//! Every container in the engine is ordered by the total orders defined here,
//! so that two states with the same logical content are bit-for-bit identical
//! and serialize identically.

use vstd::prelude::*;

verus! {

/// Identifier of a vehicle agent.
#[derive(Clone, Copy, PartialEq, Eq, Structural, Debug)]
pub struct CarID(pub usize);

/// Identifier of a pedestrian agent.
#[derive(Clone, Copy, PartialEq, Eq, Structural, Debug)]
pub struct PedestrianID(pub usize);

/// Identifier of a turn: a directed movement through an intersection.
/// It indexes the turn tables of a `MapModel`.
#[derive(Clone, Copy, PartialEq, Eq, Structural, Debug)]
pub struct TurnID(pub usize);

/// An agent is either a car or a pedestrian.
#[derive(Clone, Copy, PartialEq, Eq, Structural, Debug)]
pub enum AgentID {
    Car(CarID),
    Pedestrian(PedestrianID),
}

/// The atomic unit of demand: an agent plus the turn it wants to execute.
#[derive(Clone, Copy, PartialEq, Eq, Structural, Debug)]
pub struct Request {
    pub agent: AgentID,
    pub turn: TurnID,
}

impl Request {
    pub fn for_car(car: CarID, t: TurnID) -> (r: Request)
        ensures
            r == (Request { agent: AgentID::Car(car), turn: t }),
    {
        Request { agent: AgentID::Car(car), turn: t }
    }

    pub fn for_ped(ped: PedestrianID, t: TurnID) -> (r: Request)
        ensures
            r == (Request { agent: AgentID::Pedestrian(ped), turn: t }),
    {
        Request { agent: AgentID::Pedestrian(ped), turn: t }
    }
}

/// Total order on agents: all cars before all pedestrians, each by number.
/// Stable and independent of any hash, so replay stays deterministic.
pub open spec fn agent_lt(a: AgentID, b: AgentID) -> bool {
    match (a, b) {
        (AgentID::Car(x), AgentID::Car(y)) => x.0 < y.0,
        (AgentID::Car(_), AgentID::Pedestrian(_)) => true,
        (AgentID::Pedestrian(_), AgentID::Car(_)) => false,
        (AgentID::Pedestrian(x), AgentID::Pedestrian(y)) => x.0 < y.0,
    }
}

/// Total order on requests: by agent, then by turn.
pub open spec fn req_lt(a: Request, b: Request) -> bool {
    agent_lt(a.agent, b.agent) || (a.agent == b.agent && a.turn.0 < b.turn.0)
}

/// Executable comparison deciding `agent_lt`.
pub fn agent_before(a: AgentID, b: AgentID) -> (r: bool)
    ensures
        r == agent_lt(a, b),
{
    match (a, b) {
        (AgentID::Car(x), AgentID::Car(y)) => x.0 < y.0,
        (AgentID::Car(_), AgentID::Pedestrian(_)) => true,
        (AgentID::Pedestrian(_), AgentID::Car(_)) => false,
        (AgentID::Pedestrian(x), AgentID::Pedestrian(y)) => x.0 < y.0,
    }
}

/// Executable comparison deciding `req_lt`.
pub fn req_before(a: Request, b: Request) -> (r: bool)
    ensures
        r == req_lt(a, b),
{
    if agent_before(a.agent, b.agent) {
        true
    } else {
        a.agent == b.agent && a.turn.0 < b.turn.0
    }
}

} // verus!
