//! Admission control for intersections in a discrete-time traffic simulation.
//!
//! Agents submit requests to execute a turn through an intersection; once per
//! tick the driver steps every intersection, which promotes waiting requests
//! to accepted ones under the governing policy (stop sign or traffic signal).
//! No two accepted turns at one intersection may conflict.

pub mod codec;
pub mod error;
pub mod ids;
pub mod map_data;
pub mod ordered;
pub mod registry;
pub mod stop_sign;
pub mod traffic_signal;

pub use error::ConsistencyViolation;
pub use ids::{AgentID, CarID, PedestrianID, Request, TurnID};
pub use map_data::{MapModel, TurnPriority};
pub use registry::{IntersectionPolicy, IntersectionSimState, SignalState};
pub use stop_sign::{StopSign, WAIT_AT_STOP_SIGN};
pub use traffic_signal::{TrafficSignal, SPEED_LIMIT};
