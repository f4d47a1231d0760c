//! The intersection registry: one policy per intersection, dispatching the
//! public protocol (`submit_request`, `step`, `request_granted`, `on_enter`,
//! `on_exit`) to the policy that owns the request's intersection.

use crate::error::ConsistencyViolation;
use crate::ids::{AgentID, Request, TurnID};
use crate::map_data::MapModel;
use crate::stop_sign::{
    accepted_conflict_free, lemma_step_preserves_conflict_free, no_equal_priority_conflicts,
    stop_step_acc, stop_step_waiting, submit_waiting_spec, StopSign,
};
use crate::traffic_signal::{
    cycle_compatible, lemma_signal_step_conflict_free, signal_step_acc, signal_step_pending,
    submit_pending_spec, TrafficSignal,
};
use vstd::prelude::*;

verus! {

/// Per-intersection admission regime. A closed sum, not a trait object, so
/// the whole state is a plain value and serializes deterministically.
pub enum IntersectionPolicy {
    StopSignPolicy(StopSign),
    TrafficSignalPolicy(TrafficSignal),
}

impl IntersectionPolicy {
    /// The intersection this policy serves.
    pub open spec fn id_spec(self) -> int {
        match self {
            IntersectionPolicy::StopSignPolicy(s) => s.id as int,
            IntersectionPolicy::TrafficSignalPolicy(t) => t.id as int,
        }
    }

    /// Whether this is the signalized regime.
    pub open spec fn is_signal(self) -> bool {
        match self {
            IntersectionPolicy::StopSignPolicy(_) => false,
            IntersectionPolicy::TrafficSignalPolicy(_) => true,
        }
    }

    /// The accepted turn of each admitted agent.
    pub open spec fn acc(self) -> Map<AgentID, TurnID> {
        match self {
            IntersectionPolicy::StopSignPolicy(s) => s.acc(),
            IntersectionPolicy::TrafficSignalPolicy(t) => t.acc(),
        }
    }

    /// The stop-sign waiting map; empty under a signal.
    pub open spec fn stop_waiting(self) -> Map<Request, u64> {
        match self {
            IntersectionPolicy::StopSignPolicy(s) => s.waiting(),
            IntersectionPolicy::TrafficSignalPolicy(_) => Map::empty(),
        }
    }

    /// The signal pending set; empty under a stop sign.
    pub open spec fn signal_pending(self) -> Set<Request> {
        match self {
            IntersectionPolicy::StopSignPolicy(_) => Set::empty(),
            IntersectionPolicy::TrafficSignalPolicy(t) => t.pending(),
        }
    }

    /// The containers hold their canonical order.
    pub open spec fn wf(self) -> bool {
        match self {
            IntersectionPolicy::StopSignPolicy(s) => s.wf(),
            IntersectionPolicy::TrafficSignalPolicy(t) => t.wf(),
        }
    }

    /// Every turn on record belongs to this intersection and to the map.
    pub open spec fn wf_for(self, m: MapModel) -> bool {
        match self {
            IntersectionPolicy::StopSignPolicy(s) => s.wf_for(m),
            IntersectionPolicy::TrafficSignalPolicy(t) => t.wf_for(m),
        }
    }

    /// The calling protocol's guarantee: one outstanding request per agent.
    pub open spec fn agents_unique(self) -> bool {
        match self {
            IntersectionPolicy::StopSignPolicy(s) => s.agents_unique(),
            IntersectionPolicy::TrafficSignalPolicy(t) => t.agents_unique(),
        }
    }

    /// Nothing waiting, nothing accepted.
    pub open spec fn idle(self) -> bool {
        self.acc() == Map::<AgentID, TurnID>::empty() && self.stop_waiting() == Map::<
            Request,
            u64,
        >::empty() && self.signal_pending() == Set::<Request>::empty()
    }
}

/// What the signal plan provider reports for one intersection at one instant:
/// the active cycle and the time remaining in it, in ticks.
pub struct SignalState {
    pub cycle: Vec<TurnID>,
    pub remaining: u64,
}

/// How one policy changes under one `step`, given the signal state supplied
/// for its intersection.
pub open spec fn step_rel(
    p0: IntersectionPolicy,
    p1: IntersectionPolicy,
    m: MapModel,
    time: u64,
    sig: SignalState,
) -> bool {
    &&& p1.id_spec() == p0.id_spec()
    &&& p1.is_signal() == p0.is_signal()
    &&& if p0.is_signal() {
        &&& p1.acc() == signal_step_acc(
            p0.acc(),
            p0.signal_pending(),
            m,
            sig.cycle@,
            sig.remaining,
        )
        &&& p1.signal_pending() == signal_step_pending(
            p0.signal_pending(),
            m,
            sig.cycle@,
            sig.remaining,
        )
        &&& p1.stop_waiting() == p0.stop_waiting()
    } else {
        &&& p1.acc() == stop_step_acc(p0.acc(), p0.stop_waiting(), m, time)
        &&& p1.stop_waiting() == stop_step_waiting(p0.acc(), p0.stop_waiting(), m, time)
        &&& p1.signal_pending() == p0.signal_pending()
    }
}

/// The whole engine: one policy per intersection, indexed by intersection
/// number.
pub struct IntersectionSimState {
    pub intersections: Vec<IntersectionPolicy>,
}

impl IntersectionSimState {
    /// The policies in intersection order.
    pub open spec fn policies(self) -> Seq<IntersectionPolicy> {
        self.intersections@
    }

    /// One well-formed policy of the right regime per intersection.
    pub open spec fn wf(self, m: MapModel) -> bool {
        &&& self.policies().len() == m.n_ints()
        &&& forall|i: int|
            0 <= i < self.policies().len() ==> {
                let p = #[trigger] self.policies()[i];
                p.wf() && p.wf_for(m) && p.id_spec() == i && p.is_signal() == m.signalized(i)
            }
    }

    /// The protocol guarantee holds at every intersection.
    pub open spec fn all_agents_unique(self) -> bool {
        forall|i: int|
            0 <= i < self.policies().len() ==> (#[trigger] self.policies()[i]).agents_unique()
    }

    /// The request is granted: its agent is accepted for exactly its turn at
    /// its parent intersection.
    pub open spec fn spec_granted(self, req: Request, m: MapModel) -> bool {
        let acc = self.policies()[m.parent_of(req.turn.0 as int)].acc();
        acc.dom().contains(req.agent) && acc[req.agent] == req.turn
    }

    /// Builds one idle policy per intersection from the map's static
    /// classification: a signal policy where the intersection has a traffic
    /// signal, a stop-sign policy everywhere else.
    #[verifier::loop_isolation(false)]
    pub fn new(map: &MapModel) -> (r: IntersectionSimState)
        requires
            map.wf(),
        ensures
            r.wf(*map),
            r.all_agents_unique(),
            forall|i: int| 0 <= i < r.policies().len() ==> (#[trigger] r.policies()[i]).idle(),
    {
        let n: usize = map.num_intersections();
        let mut intersections: Vec<IntersectionPolicy> = Vec::new();
        let mut i: usize = 0;
        while i < n
            invariant
                i <= n,
                intersections@.len() == i,
                forall|j: int|
                    0 <= j < i ==> {
                        let p = #[trigger] intersections@[j];
                        p.wf() && p.wf_for(*map) && p.id_spec() == j && p.is_signal()
                            == map.signalized(j) && p.agents_unique() && p.idle()
                    },
            decreases n - i,
        {
            if map.is_signalized(i) {
                intersections.push(IntersectionPolicy::TrafficSignalPolicy(TrafficSignal::new(i)));
            } else {
                intersections.push(IntersectionPolicy::StopSignPolicy(StopSign::new(i)));
            }
            i = i + 1;
        }
        IntersectionSimState { intersections }
    }

    /// Pure query: whether the request holds its granted slot. No side
    /// effects.
    pub fn request_granted(&self, req: Request, map: &MapModel) -> (r: bool)
        requires
            map.wf(),
            self.wf(*map),
            0 <= req.turn.0 < map.n_turns(),
        ensures
            r == self.spec_granted(req, *map),
    {
        let i: usize = map.parent(req.turn);
        match &self.intersections[i] {
            IntersectionPolicy::StopSignPolicy(p) => p.granted(req),
            IntersectionPolicy::TrafficSignalPolicy(p) => p.granted(req),
        }
    }

    /// Idempotent enqueue of a request at its parent intersection. It does
    /// not grant anything; `step` alone promotes. An agent accepted for this
    /// very turn is a no-op; one accepted for a different turn gets the
    /// protocol error, with the state unchanged.
    pub fn submit_request(&mut self, req: Request, time: u64, map: &MapModel) -> (r: Result<
        (),
        ConsistencyViolation,
    >)
        requires
            map.wf(),
            old(self).wf(*map),
            0 <= req.turn.0 < map.n_turns(),
        ensures
            final(self).wf(*map),
            final(self).policies().len() == old(self).policies().len(),
            forall|j: int|
                0 <= j < old(self).policies().len() && j != map.parent_of(req.turn.0 as int)
                    ==> #[trigger] final(self).policies()[j] == old(self).policies()[j],
            ({
                let i = map.parent_of(req.turn.0 as int);
                let p0 = old(self).policies()[i];
                let p1 = final(self).policies()[i];
                &&& p1.id_spec() == p0.id_spec()
                &&& p1.is_signal() == p0.is_signal()
                &&& p1.acc() == p0.acc()
                &&& (!p0.is_signal() ==> p1.stop_waiting() == submit_waiting_spec(
                    p0.acc(),
                    p0.stop_waiting(),
                    req,
                    time,
                ) && p1.signal_pending() == p0.signal_pending())
                &&& (p0.is_signal() ==> p1.signal_pending() == submit_pending_spec(
                    p0.acc(),
                    p0.signal_pending(),
                    req,
                ) && p1.stop_waiting() == p0.stop_waiting())
            }),
            ({
                let acc = old(self).policies()[map.parent_of(req.turn.0 as int)].acc();
                r is Ok <==> (acc.dom().contains(req.agent) ==> acc[req.agent] == req.turn)
            }),
            ({
                let p0 = old(self).policies()[map.parent_of(req.turn.0 as int)];
                old(self).all_agents_unique() && (forall|r2: Request|
                    #[trigger] p0.stop_waiting().dom().contains(r2) && r2.agent == req.agent
                        ==> r2 == req) && (forall|r2: Request|
                    #[trigger] p0.signal_pending().contains(r2) && r2.agent == req.agent ==> r2
                        == req)
            }) ==> final(self).all_agents_unique(),
    {
        let ghost olds = self.intersections@;
        let i: usize = map.parent(req.turn);
        let p = self.intersections.remove(i);
        let ghost p0 = p;
        let (p2, res): (IntersectionPolicy, Result<(), ConsistencyViolation>) = match p {
            IntersectionPolicy::StopSignPolicy(mut s) => {
                let res = s.submit(req, time);
                (IntersectionPolicy::StopSignPolicy(s), res)
            },
            IntersectionPolicy::TrafficSignalPolicy(mut t) => {
                let res = t.submit(req);
                (IntersectionPolicy::TrafficSignalPolicy(t), res)
            },
        };
        self.intersections.insert(i, p2);
        proof {
            olds.remove_ensures(i as int);
            olds.remove(i as int).insert_ensures(i as int, p2);
            assert forall|j: int|
                0 <= j < olds.len() && j != i as int implies #[trigger] self.intersections@[j]
                == olds[j] by {
                if j < i as int {
                    assert(self.intersections@[j] == olds.remove(i as int)[j]);
                } else {
                    assert(self.intersections@[j] == olds.remove(i as int)[j - 1]);
                }
            }
            assert(self.intersections@[i as int] == p2);
            assert(self.intersections@.len() == olds.len());
            assert forall|r2: Request| #[trigger] p2.stop_waiting().dom().contains(r2) implies 0
                <= r2.turn.0 < map.n_turns() && map.parent_of(r2.turn.0 as int) == p2.id_spec() by {
                if r2 != req {
                    assert(p0.stop_waiting().dom().contains(r2));
                }
            }
            assert forall|r2: Request| #[trigger] p2.signal_pending().contains(r2) implies 0
                <= r2.turn.0 < map.n_turns() && map.parent_of(r2.turn.0 as int) == p2.id_spec() by {
                if r2 != req {
                    assert(p0.signal_pending().contains(r2));
                }
            }
        }
        res
    }

    /// Runs the admission algorithm once for every intersection, judging this
    /// tick's requests. `signals` carries, per intersection, what the signal
    /// plan provider reports for the current instant; entries for stop-sign
    /// intersections are ignored. The caller upholds the request protocol:
    /// one outstanding request per agent.
    pub fn step(&mut self, time: u64, map: &MapModel, signals: &Vec<SignalState>)
        requires
            map.wf(),
            old(self).wf(*map),
            old(self).all_agents_unique(),
            signals@.len() == map.n_ints(),
        ensures
            final(self).wf(*map),
            final(self).all_agents_unique(),
            final(self).policies().len() == old(self).policies().len(),
            forall|i: int|
                0 <= i < old(self).policies().len() ==> step_rel(
                    old(self).policies()[i],
                    #[trigger] final(self).policies()[i],
                    *map,
                    time,
                    signals@[i],
                ),
    {
        let ghost olds = self.intersections@;
        let n: usize = self.intersections.len();
        let mut i: usize = 0;
        while i < n
            invariant
                i <= n,
                n == olds.len(),
                self.intersections@.len() == olds.len(),
                map.wf(),
                signals@.len() == map.n_ints(),
                olds.len() == map.n_ints(),
                forall|j: int|
                    0 <= j < olds.len() ==> {
                        let p = #[trigger] olds[j];
                        p.wf() && p.wf_for(*map) && p.id_spec() == j && p.is_signal()
                            == map.signalized(j) && p.agents_unique()
                    },
                forall|j: int| i <= j < olds.len() ==> #[trigger] self.intersections@[j] == olds[j],
                forall|j: int|
                    0 <= j < i ==> {
                        let p = #[trigger] self.intersections@[j];
                        p.wf() && p.wf_for(*map) && p.id_spec() == j && p.is_signal()
                            == map.signalized(j) && p.agents_unique() && step_rel(
                            olds[j],
                            p,
                            *map,
                            time,
                            signals@[j],
                        )
                    },
            decreases n - i,
        {
            let ghost before = self.intersections@;
            let p = self.intersections.remove(i);
            let p2: IntersectionPolicy = match p {
                IntersectionPolicy::StopSignPolicy(mut s) => {
                    s.step(time, map);
                    IntersectionPolicy::StopSignPolicy(s)
                },
                IntersectionPolicy::TrafficSignalPolicy(mut t) => {
                    let sig: &SignalState = &signals[i];
                    t.step(map, &sig.cycle, sig.remaining);
                    IntersectionPolicy::TrafficSignalPolicy(t)
                },
            };
            self.intersections.insert(i, p2);
            proof {
                before.remove_ensures(i as int);
                before.remove(i as int).insert_ensures(i as int, p2);
                assert forall|j: int|
                    0 <= j < before.len() && j != i as int
                    implies #[trigger] self.intersections@[j] == before[j] by {
                    if j < i as int {
                        assert(self.intersections@[j] == before.remove(i as int)[j]);
                    } else {
                        assert(self.intersections@[j] == before.remove(i as int)[j - 1]);
                    }
                }
                assert(self.intersections@[i as int] == p2);
            }
            i = i + 1;
        }
    }

    /// No two accepted entries at any one intersection hold mutually
    /// conflicting turns.
    pub open spec fn conflict_free(self, m: MapModel) -> bool {
        forall|i: int|
            0 <= i < self.policies().len() ==> accepted_conflict_free(
                (#[trigger] self.policies()[i]).acc(),
                m,
            )
    }

    /// Asserts that the entering agent holds its granted slot; mutates
    /// nothing.
    pub fn on_enter(&self, req: Request, map: &MapModel) -> (r: Result<(), ConsistencyViolation>)
        requires
            map.wf(),
            self.wf(*map),
            0 <= req.turn.0 < map.n_turns(),
        ensures
            r is Ok <==> self.spec_granted(req, *map),
    {
        let i: usize = map.parent(req.turn);
        match &self.intersections[i] {
            IntersectionPolicy::StopSignPolicy(p) => p.on_enter(req),
            IntersectionPolicy::TrafficSignalPolicy(p) => p.on_enter(req),
        }
    }

    /// Releases the slot of the exiting agent, freeing it for future
    /// conflict checks.
    pub fn on_exit(&mut self, req: Request, map: &MapModel) -> (r: Result<
        (),
        ConsistencyViolation,
    >)
        requires
            map.wf(),
            old(self).wf(*map),
            0 <= req.turn.0 < map.n_turns(),
        ensures
            final(self).wf(*map),
            old(self).all_agents_unique() ==> final(self).all_agents_unique(),
            final(self).policies().len() == old(self).policies().len(),
            forall|j: int|
                0 <= j < old(self).policies().len() && j != map.parent_of(req.turn.0 as int)
                    ==> #[trigger] final(self).policies()[j] == old(self).policies()[j],
            r is Ok <==> old(self).spec_granted(req, *map),
            ({
                let i = map.parent_of(req.turn.0 as int);
                let p0 = old(self).policies()[i];
                let p1 = final(self).policies()[i];
                &&& p1.id_spec() == p0.id_spec()
                &&& p1.is_signal() == p0.is_signal()
                &&& p1.stop_waiting() == p0.stop_waiting()
                &&& p1.signal_pending() == p0.signal_pending()
                &&& p1.acc() == if old(self).spec_granted(req, *map) {
                    p0.acc().remove(req.agent)
                } else {
                    p0.acc()
                }
            }),
    {
        let ghost olds = self.intersections@;
        let i: usize = map.parent(req.turn);
        let p = self.intersections.remove(i);
        let ghost p0 = p;
        let (p2, res): (IntersectionPolicy, Result<(), ConsistencyViolation>) = match p {
            IntersectionPolicy::StopSignPolicy(mut s) => {
                let res = s.on_exit(req);
                (IntersectionPolicy::StopSignPolicy(s), res)
            },
            IntersectionPolicy::TrafficSignalPolicy(mut t) => {
                let res = t.on_exit(req);
                (IntersectionPolicy::TrafficSignalPolicy(t), res)
            },
        };
        self.intersections.insert(i, p2);
        proof {
            olds.remove_ensures(i as int);
            olds.remove(i as int).insert_ensures(i as int, p2);
            assert forall|j: int|
                0 <= j < olds.len() && j != i as int implies #[trigger] self.intersections@[j]
                == olds[j] by {
                if j < i as int {
                    assert(self.intersections@[j] == olds.remove(i as int)[j]);
                } else {
                    assert(self.intersections@[j] == olds.remove(i as int)[j - 1]);
                }
            }
            assert(self.intersections@[i as int] == p2);
        }
        res
    }
}

/// Conflict-freedom across the registry: when every intersection starts the
/// tick conflict-free, the calling protocol holds, no stop-sign intersection
/// has two waiting conflicting requests of equal priority, and every
/// supplied signal cycle is compatible with itself and with what is already
/// accepted, then one `step` leaves every intersection conflict-free.
pub proof fn lemma_step_preserves_registry_conflict_free(
    st0: IntersectionSimState,
    st1: IntersectionSimState,
    m: MapModel,
    time: u64,
    signals: Seq<SignalState>,
)
    requires
        m.wf(),
        st0.wf(m),
        st0.all_agents_unique(),
        st0.conflict_free(m),
        signals.len() == m.n_ints(),
        st1.policies().len() == st0.policies().len(),
        forall|i: int|
            0 <= i < st0.policies().len() ==> step_rel(
                st0.policies()[i],
                #[trigger] st1.policies()[i],
                m,
                time,
                signals[i],
            ),
        forall|i: int|
            0 <= i < st0.policies().len() ==> (!(#[trigger] st0.policies()[i]).is_signal()
                ==> no_equal_priority_conflicts(st0.policies()[i].stop_waiting(), m)),
        forall|i: int|
            0 <= i < st0.policies().len() ==> ((#[trigger] st0.policies()[i]).is_signal()
                ==> cycle_compatible(st0.policies()[i].acc(), signals[i].cycle@, m)),
    ensures
        st1.conflict_free(m),
{
    assert forall|i: int| 0 <= i < st1.policies().len() implies accepted_conflict_free(
        (#[trigger] st1.policies()[i]).acc(),
        m,
    ) by {
        let p0 = st0.policies()[i];
        assert(step_rel(p0, st1.policies()[i], m, time, signals[i]));
        if p0.is_signal() {
            lemma_signal_step_conflict_free(
                p0.acc(),
                p0.signal_pending(),
                m,
                signals[i].cycle@,
                signals[i].remaining,
            );
        } else {
            lemma_step_preserves_conflict_free(p0.acc(), p0.stop_waiting(), m, time);
        }
    }
}

} // verus!
