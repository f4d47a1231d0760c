//! Admission policy for an unsignalized intersection governed by stop-sign
//! priorities.
//!
//! Waiting requests are promoted once per tick. A request is admitted exactly
//! when its turn conflicts with no turn accepted before this tick, no
//! still-waiting request of strictly higher priority conflicts with it, and a
//! Stop-category turn has dwelt long enough at the sign. All requests of one
//! tick are judged against the accepted set as of the start of the tick, never
//! against each other's promotions within the same pass.

use crate::error::ConsistencyViolation;
use crate::ids::{req_lt, AgentID, Request, TurnID};
use crate::map_data::{rank, MapModel, TurnPriority};
use crate::ordered::{
    acc_with, lemma_acc_with, lemma_agent_map_view, lemma_wait_map_view, wait_entries_sorted,
    AgentMap, WaitQueue,
};
use vstd::prelude::*;

verus! {

/// Mandatory dwell before a Stop-category turn may be admitted, in ticks of a
/// tenth of a second: one and a half seconds of simulated time.
pub const WAIT_AT_STOP_SIGN: u64 = 15;

/// The turn conflicts with a turn some agent is already accepted for.
pub open spec fn conflicts_with_accepted_spec(
    acc: Map<AgentID, TurnID>,
    m: MapModel,
    turn: TurnID,
) -> bool {
    exists|a: AgentID|
        #[trigger] acc.dom().contains(a) && m.conflicts(acc[a].0 as int, turn.0 as int)
}

/// Some still-waiting request of strictly higher priority conflicts with the
/// turn.
pub open spec fn blocked_by_higher(w: Map<Request, u64>, m: MapModel, turn: TurnID) -> bool {
    exists|r: Request|
        #[trigger] w.dom().contains(r) && m.conflicts(r.turn.0 as int, turn.0 as int) && rank(
            m.priority_of(r.turn.0 as int),
        ) > rank(m.priority_of(turn.0 as int))
}

/// The mandatory dwell of a request first seen at `started` is over at `time`.
pub open spec fn dwell_done(started: u64, time: u64) -> bool {
    started + WAIT_AT_STOP_SIGN <= time
}

/// A waiting request is admitted by the step at `time`, judged against the
/// accepted set and the waiting set as they stand before the step.
pub open spec fn eligible(
    acc: Map<AgentID, TurnID>,
    w: Map<Request, u64>,
    m: MapModel,
    time: u64,
    r: Request,
) -> bool {
    &&& w.dom().contains(r)
    &&& !conflicts_with_accepted_spec(acc, m, r.turn)
    &&& !blocked_by_higher(w, m, r.turn)
    &&& (m.priority_of(r.turn.0 as int) == TurnPriority::Stop ==> dwell_done(w[r], time))
}

/// The accepted map after one step: the old map, with every eligible request
/// admitted, keyed by agent.
pub open spec fn stop_step_acc(
    acc: Map<AgentID, TurnID>,
    w: Map<Request, u64>,
    m: MapModel,
    time: u64,
) -> Map<AgentID, TurnID> {
    Map::new(
        |a: AgentID|
            acc.dom().contains(a) || (exists|r: Request|
                #[trigger] eligible(acc, w, m, time, r) && r.agent == a),
        |a: AgentID|
            if acc.dom().contains(a) {
                acc[a]
            } else {
                (choose|r: Request| #[trigger] eligible(acc, w, m, time, r) && r.agent == a).turn
            },
    )
}

/// The waiting map after one step: the old map without the eligible requests.
pub open spec fn stop_step_waiting(
    acc: Map<AgentID, TurnID>,
    w: Map<Request, u64>,
    m: MapModel,
    time: u64,
) -> Map<Request, u64> {
    Map::new(
        |r: Request| w.dom().contains(r) && !eligible(acc, w, m, time, r),
        |r: Request| w[r],
    )
}

/// What submitting a request does to the waiting map: a no-op for an agent
/// already accepted or a request already recorded, else recorded at `time`.
pub open spec fn submit_waiting_spec(
    acc: Map<AgentID, TurnID>,
    w: Map<Request, u64>,
    req: Request,
    time: u64,
) -> Map<Request, u64> {
    if acc.dom().contains(req.agent) {
        w
    } else if w.dom().contains(req) {
        w
    } else {
        w.insert(req, time)
    }
}

/// No two distinct accepted agents hold mutually conflicting turns.
pub open spec fn accepted_conflict_free(acc: Map<AgentID, TurnID>, m: MapModel) -> bool {
    forall|a1: AgentID, a2: AgentID|
        acc.dom().contains(a1) && acc.dom().contains(a2) && a1 != a2 ==> !m.conflicts(
            (#[trigger] acc[a1]).0 as int,
            (#[trigger] acc[a2]).0 as int,
        )
}

/// The waiting map after removing the first `p` requests of `s`.
pub open spec fn waiting_without(w: Map<Request, u64>, s: Seq<Request>, p: int) -> Map<
    Request,
    u64,
>
    decreases p,
{
    if p <= 0 {
        w
    } else {
        waiting_without(w, s, p - 1).remove(s[p - 1])
    }
}

/// Removing the first `p` requests of `s` drops exactly those keys and keeps
/// all other bindings.
pub proof fn lemma_waiting_without(w: Map<Request, u64>, s: Seq<Request>, p: int)
    requires
        0 <= p <= s.len(),
    ensures
        forall|r: Request|
            #[trigger] waiting_without(w, s, p).dom().contains(r) <==> (w.dom().contains(r) && !(
            exists|q: int| 0 <= q < p && #[trigger] s[q] == r)),
        forall|r: Request|
            #[trigger] waiting_without(w, s, p).dom().contains(r) ==> waiting_without(w, s, p)[r]
                == w[r],
    decreases p,
{
    if p > 0 {
        lemma_waiting_without(w, s, p - 1);
        assert forall|r: Request| #[trigger] waiting_without(w, s, p).dom().contains(r) implies (
        w.dom().contains(r) && !(exists|q: int| 0 <= q < p && #[trigger] s[q] == r)) by {
            assert(waiting_without(w, s, p - 1).dom().contains(r));
            assert(r != s[p - 1]);
            if exists|q: int| 0 <= q < p && #[trigger] s[q] == r {
                let q = choose|q: int| 0 <= q < p && #[trigger] s[q] == r;
                assert(0 <= q < p - 1 && s[q] == r);
                assert(false);
            }
        }
        assert forall|r: Request| (w.dom().contains(r) && !(exists|q: int|
            0 <= q < p && #[trigger] s[q] == r)) implies #[trigger] waiting_without(
            w,
            s,
            p,
        ).dom().contains(r) by {
            if exists|q: int| 0 <= q < p - 1 && #[trigger] s[q] == r {
                let q = choose|q: int| 0 <= q < p - 1 && #[trigger] s[q] == r;
                assert(0 <= q < p && s[q] == r);
                assert(false);
            }
            assert(waiting_without(w, s, p - 1).dom().contains(r));
            if s[p - 1] == r {
                assert(0 <= p - 1 < p && s[p - 1] == r);
                assert(false);
            }
        }
        assert forall|r: Request| #[trigger] waiting_without(w, s, p).dom().contains(r)
            implies waiting_without(w, s, p)[r] == w[r] by {
            assert(waiting_without(w, s, p - 1).dom().contains(r));
            assert(r != s[p - 1]);
        }
    }
}

/// The requests among the first `k` waiting entries that the step admits, in
/// canonical order.
pub open spec fn eligible_prefix(
    acc: Map<AgentID, TurnID>,
    w: Map<Request, u64>,
    m: MapModel,
    time: u64,
    s: Seq<(Request, u64)>,
    k: int,
) -> Seq<Request>
    decreases k,
{
    if k <= 0 {
        Seq::empty()
    } else {
        let rest = eligible_prefix(acc, w, m, time, s, k - 1);
        if eligible(acc, w, m, time, s[k - 1].0) {
            rest.push(s[k - 1].0)
        } else {
            rest
        }
    }
}

/// The admitted prefix holds exactly the eligible requests among the first
/// `k` entries, in their canonical order.
pub proof fn lemma_eligible_prefix(
    acc: Map<AgentID, TurnID>,
    w: Map<Request, u64>,
    m: MapModel,
    time: u64,
    s: Seq<(Request, u64)>,
    k: int,
)
    requires
        0 <= k <= s.len(),
        wait_entries_sorted(s),
    ensures
        forall|p: int|
            0 <= p < eligible_prefix(acc, w, m, time, s, k).len() ==> eligible(
                acc,
                w,
                m,
                time,
                #[trigger] eligible_prefix(acc, w, m, time, s, k)[p],
            ),
        forall|j: int|
            0 <= j < k && eligible(acc, w, m, time, (#[trigger] s[j]).0) ==> eligible_prefix(
                acc,
                w,
                m,
                time,
                s,
                k,
            ).contains(s[j].0),
        forall|p: int|
            0 <= p < eligible_prefix(acc, w, m, time, s, k).len() ==> exists|j: int|
                0 <= j < k && (#[trigger] s[j]).0 == #[trigger] eligible_prefix(
                    acc,
                    w,
                    m,
                    time,
                    s,
                    k,
                )[p],
        forall|p1: int, p2: int|
            0 <= p1 < p2 < eligible_prefix(acc, w, m, time, s, k).len() ==> req_lt(
                #[trigger] eligible_prefix(acc, w, m, time, s, k)[p1],
                #[trigger] eligible_prefix(acc, w, m, time, s, k)[p2],
            ),
    decreases k,
{
    if k > 0 {
        lemma_eligible_prefix(acc, w, m, time, s, k - 1);
        let prev = eligible_prefix(acc, w, m, time, s, k - 1);
        let cur = eligible_prefix(acc, w, m, time, s, k);
        if eligible(acc, w, m, time, s[k - 1].0) {
            assert(cur == prev.push(s[k - 1].0));
            assert forall|j: int|
                0 <= j < k && eligible(acc, w, m, time, (#[trigger] s[j]).0) implies cur.contains(
                s[j].0,
            ) by {
                if j == k - 1 {
                    assert(cur[cur.len() - 1] == s[k - 1].0);
                } else {
                    assert(prev.contains(s[j].0));
                    let p = choose|p: int| 0 <= p < prev.len() && prev[p] == s[j].0;
                    assert(cur[p] == s[j].0);
                }
            }
            assert forall|p1: int, p2: int| 0 <= p1 < p2 < cur.len() implies req_lt(
                #[trigger] cur[p1],
                #[trigger] cur[p2],
            ) by {
                if p2 == cur.len() - 1 {
                    let j = choose|j: int| 0 <= j < k - 1 && (#[trigger] s[j]).0 == prev[p1];
                    assert(req_lt(s[j].0, s[k - 1].0));
                }
            }
        } else {
            assert(cur == prev);
            assert forall|j: int|
                0 <= j < k && eligible(acc, w, m, time, (#[trigger] s[j]).0) implies cur.contains(
                s[j].0,
            ) by {
                assert(j != k - 1);
                assert(prev.contains(s[j].0));
            }
        }
    }
}

/// No two distinct waiting conflicting requests share a priority rank. Two
/// such requests are the one input on which a single pass against the
/// pre-step accepted set can admit both sides of a conflict.
pub open spec fn no_equal_priority_conflicts(w: Map<Request, u64>, m: MapModel) -> bool {
    forall|r1: Request, r2: Request|
        w.dom().contains(r1) && w.dom().contains(r2) && r1 != r2 && m.conflicts(
            (#[trigger] r1.turn).0 as int,
            (#[trigger] r2.turn).0 as int,
        ) ==> rank(m.priority_of(r1.turn.0 as int)) != rank(m.priority_of(r2.turn.0 as int))
}

/// Conflict-freedom: when the accepted set is conflict-free, every waiting
/// agent is distinct and not yet accepted, and no two waiting requests of
/// equal priority conflict, then the accepted set after a step is again
/// conflict-free.
pub proof fn lemma_step_preserves_conflict_free(
    acc: Map<AgentID, TurnID>,
    w: Map<Request, u64>,
    m: MapModel,
    time: u64,
)
    requires
        m.wf(),
        accepted_conflict_free(acc, m),
        forall|r: Request| #[trigger] w.dom().contains(r) ==> 0 <= r.turn.0 < m.n_turns(),
        forall|a: AgentID| #[trigger] acc.dom().contains(a) ==> 0 <= acc[a].0 < m.n_turns(),
        forall|r: Request| #[trigger] w.dom().contains(r) ==> !acc.dom().contains(r.agent),
        forall|r1: Request, r2: Request|
            w.dom().contains(r1) && w.dom().contains(r2) && r1 != r2 ==> (#[trigger] r1.agent)
                != (#[trigger] r2.agent),
        no_equal_priority_conflicts(w, m),
    ensures
        accepted_conflict_free(stop_step_acc(acc, w, m, time), m),
{
    let na = stop_step_acc(acc, w, m, time);
    assert forall|a1: AgentID, a2: AgentID|
        na.dom().contains(a1) && na.dom().contains(a2) && a1 != a2 implies !m.conflicts(
        (#[trigger] na[a1]).0 as int,
        (#[trigger] na[a2]).0 as int,
    ) by {
        if acc.dom().contains(a1) && acc.dom().contains(a2) {
            assert(!m.conflicts(acc[a1].0 as int, acc[a2].0 as int));
        } else if acc.dom().contains(a1) {
            let r2 = choose|r: Request| #[trigger] eligible(acc, w, m, time, r) && r.agent == a2;
            assert(na[a2] == r2.turn);
            assert(!conflicts_with_accepted_spec(acc, m, r2.turn));
            assert(!m.conflicts(acc[a1].0 as int, r2.turn.0 as int));
            assert(m.conflicts(r2.turn.0 as int, acc[a1].0 as int) == m.conflicts(
                acc[a1].0 as int,
                r2.turn.0 as int,
            ));
        } else if acc.dom().contains(a2) {
            let r1 = choose|r: Request| #[trigger] eligible(acc, w, m, time, r) && r.agent == a1;
            assert(na[a1] == r1.turn);
            assert(!conflicts_with_accepted_spec(acc, m, r1.turn));
            assert(!m.conflicts(acc[a2].0 as int, r1.turn.0 as int));
            assert(m.conflicts(r1.turn.0 as int, acc[a2].0 as int) == m.conflicts(
                acc[a2].0 as int,
                r1.turn.0 as int,
            ));
        } else {
            let r1 = choose|r: Request| #[trigger] eligible(acc, w, m, time, r) && r.agent == a1;
            let r2 = choose|r: Request| #[trigger] eligible(acc, w, m, time, r) && r.agent == a2;
            assert(na[a1] == r1.turn && na[a2] == r2.turn);
            assert(r1 != r2);
            if m.conflicts(r1.turn.0 as int, r2.turn.0 as int) {
                assert(m.conflicts(r2.turn.0 as int, r1.turn.0 as int));
                let k1 = rank(m.priority_of(r1.turn.0 as int));
                let k2 = rank(m.priority_of(r2.turn.0 as int));
                assert(k1 != k2);
                if k1 > k2 {
                    assert(blocked_by_higher(w, m, r2.turn));
                } else {
                    assert(blocked_by_higher(w, m, r1.turn));
                }
            }
        }
    }
}

/// Dwell enforcement: a Stop-category request whose dwell is not over at
/// `time` stays waiting with its clock unchanged, and its agent is not
/// admitted by the step at `time`.
pub proof fn lemma_dwell_enforced(
    acc: Map<AgentID, TurnID>,
    w: Map<Request, u64>,
    m: MapModel,
    time: u64,
    r: Request,
)
    requires
        w.dom().contains(r),
        !acc.dom().contains(r.agent),
        forall|r1: Request, r2: Request|
            w.dom().contains(r1) && w.dom().contains(r2) && r1 != r2 ==> (#[trigger] r1.agent)
                != (#[trigger] r2.agent),
        m.priority_of(r.turn.0 as int) == TurnPriority::Stop,
        !dwell_done(w[r], time),
    ensures
        !eligible(acc, w, m, time, r),
        stop_step_waiting(acc, w, m, time).dom().contains(r),
        stop_step_waiting(acc, w, m, time)[r] == w[r],
        !stop_step_acc(acc, w, m, time).dom().contains(r.agent),
{
    assert(!eligible(acc, w, m, time, r));
    if stop_step_acc(acc, w, m, time).dom().contains(r.agent) {
        let rr = choose|rr: Request|
            #[trigger] eligible(acc, w, m, time, rr) && rr.agent == r.agent;
        assert(w.dom().contains(rr));
        assert(rr == r);
    }
}

/// Priority precedence: while a conflicting request of strictly higher
/// priority is waiting, the lower request is not admitted and stays waiting.
pub proof fn lemma_priority_precedence(
    acc: Map<AgentID, TurnID>,
    w: Map<Request, u64>,
    m: MapModel,
    time: u64,
    ra: Request,
    rb: Request,
)
    requires
        w.dom().contains(ra),
        w.dom().contains(rb),
        m.conflicts(ra.turn.0 as int, rb.turn.0 as int),
        rank(m.priority_of(ra.turn.0 as int)) > rank(m.priority_of(rb.turn.0 as int)),
        !acc.dom().contains(rb.agent),
        forall|r1: Request, r2: Request|
            w.dom().contains(r1) && w.dom().contains(r2) && r1 != r2 ==> (#[trigger] r1.agent)
                != (#[trigger] r2.agent),
    ensures
        !eligible(acc, w, m, time, rb),
        stop_step_waiting(acc, w, m, time).dom().contains(rb),
        !stop_step_acc(acc, w, m, time).dom().contains(rb.agent),
{
    assert(blocked_by_higher(w, m, rb.turn));
    if stop_step_acc(acc, w, m, time).dom().contains(rb.agent) {
        let rr = choose|rr: Request|
            #[trigger] eligible(acc, w, m, time, rr) && rr.agent == rb.agent;
        assert(w.dom().contains(rr));
        assert(rr == rb);
    }
}

/// Idempotent submission: a second submission of the same request, at the
/// same or any later tick, leaves the waiting map as the first left it.
pub proof fn lemma_submit_idempotent(
    acc: Map<AgentID, TurnID>,
    w: Map<Request, u64>,
    req: Request,
    t1: u64,
    t2: u64,
)
    ensures
        submit_waiting_spec(acc, submit_waiting_spec(acc, w, req, t1), req, t2)
            == submit_waiting_spec(acc, w, req, t1),
{
}

/// Order-independent submission: two submissions of different requests in the
/// same tick reach the same waiting map in either order.
pub proof fn lemma_submit_commutes(
    acc: Map<AgentID, TurnID>,
    w: Map<Request, u64>,
    r1: Request,
    r2: Request,
    t: u64,
)
    ensures
        submit_waiting_spec(acc, submit_waiting_spec(acc, w, r1, t), r2, t)
            == submit_waiting_spec(acc, submit_waiting_spec(acc, w, r2, t), r1, t),
{
    let lhs = submit_waiting_spec(acc, submit_waiting_spec(acc, w, r1, t), r2, t);
    let rhs = submit_waiting_spec(acc, submit_waiting_spec(acc, w, r2, t), r1, t);
    assert(lhs =~= rhs);
}

/// Policy state of one stop-sign intersection.
pub struct StopSign {
    pub id: usize,
    pub started_waiting_at: WaitQueue,
    pub accepted: AgentMap,
}

impl StopSign {
    /// The waiting requests with the tick each was first seen.
    pub open spec fn waiting(self) -> Map<Request, u64> {
        self.started_waiting_at.as_map()
    }

    /// The accepted turn of each admitted agent.
    pub open spec fn acc(self) -> Map<AgentID, TurnID> {
        self.accepted.as_map()
    }

    /// Both containers hold their canonical order.
    pub open spec fn wf(self) -> bool {
        self.started_waiting_at.wf() && self.accepted.wf()
    }

    /// Every turn on record belongs to this intersection and to the map.
    pub open spec fn wf_for(self, m: MapModel) -> bool {
        &&& 0 <= self.id < m.n_ints()
        &&& forall|r: Request|
            #[trigger] self.waiting().dom().contains(r) ==> 0 <= r.turn.0 < m.n_turns()
                && m.parent_of(r.turn.0 as int) == self.id
        &&& forall|a: AgentID|
            #[trigger] self.acc().dom().contains(a) ==> 0 <= self.acc()[a].0 < m.n_turns()
                && m.parent_of(self.acc()[a].0 as int) == self.id
    }

    /// The calling protocol's guarantee: an agent has at most one outstanding
    /// request here, so no waiting agent is accepted and no two waiting
    /// requests share an agent.
    pub open spec fn agents_unique(self) -> bool {
        &&& forall|r: Request|
            #[trigger] self.waiting().dom().contains(r) ==> !self.acc().dom().contains(r.agent)
        &&& forall|r1: Request, r2: Request|
            self.waiting().dom().contains(r1) && self.waiting().dom().contains(r2) && r1 != r2
                ==> (#[trigger] r1.agent) != (#[trigger] r2.agent)
    }

    /// An idle policy for intersection `id`.
    pub fn new(id: usize) -> (r: StopSign)
        ensures
            r.wf(),
            r.id == id,
            r.waiting() == Map::<Request, u64>::empty(),
            r.acc() == Map::<AgentID, TurnID>::empty(),
            r.agents_unique(),
    {
        StopSign { id, started_waiting_at: WaitQueue::new(), accepted: AgentMap::new() }
    }

    /// Whether the request holds its granted slot: the agent is accepted for
    /// exactly this turn.
    pub fn granted(&self, req: Request) -> (r: bool)
        requires
            self.wf(),
        ensures
            r == (self.acc().dom().contains(req.agent) && self.acc()[req.agent] == req.turn),
    {
        match self.accepted.get(req.agent) {
            Some(t) => t == req.turn,
            None => false,
        }
    }

    /// Enqueues a request; idempotent. An agent accepted for this very turn is
    /// a no-op; one accepted for a different turn is a protocol violation.
    pub fn submit(&mut self, req: Request, time: u64) -> (r: Result<(), ConsistencyViolation>)
        requires
            old(self).wf(),
        ensures
            final(self).wf(),
            final(self).id == old(self).id,
            final(self).acc() == old(self).acc(),
            final(self).waiting() == submit_waiting_spec(
                old(self).acc(),
                old(self).waiting(),
                req,
                time,
            ),
            r is Ok <==> (old(self).acc().dom().contains(req.agent) ==> old(self).acc()[req.agent]
                == req.turn),
            old(self).agents_unique() && (forall|r2: Request|
                old(self).waiting().dom().contains(r2) && r2.agent == req.agent ==> r2 == req)
                ==> final(self).agents_unique(),
    {
        match self.accepted.get(req.agent) {
            Some(t) => {
                if t == req.turn {
                    Ok(())
                } else {
                    Err(ConsistencyViolation)
                }
            },
            None => {
                self.started_waiting_at.insert_if_absent(req, time);
                Ok(())
            },
        }
    }

    /// Asserts that the entering agent holds the slot; mutates nothing.
    pub fn on_enter(&self, req: Request) -> (r: Result<(), ConsistencyViolation>)
        requires
            self.wf(),
        ensures
            r is Ok <==> (self.acc().dom().contains(req.agent) && self.acc()[req.agent]
                == req.turn),
    {
        if self.granted(req) {
            Ok(())
        } else {
            Err(ConsistencyViolation)
        }
    }

    /// Releases the slot of the exiting agent.
    pub fn on_exit(&mut self, req: Request) -> (r: Result<(), ConsistencyViolation>)
        requires
            old(self).wf(),
        ensures
            final(self).wf(),
            final(self).id == old(self).id,
            final(self).waiting() == old(self).waiting(),
            r is Ok <==> (old(self).acc().dom().contains(req.agent) && old(self).acc()[req.agent]
                == req.turn),
            final(self).acc() == if old(self).acc().dom().contains(req.agent) && old(
                self,
            ).acc()[req.agent] == req.turn {
                old(self).acc().remove(req.agent)
            } else {
                old(self).acc()
            },
    {
        if self.granted(req) {
            self.accepted.remove(req.agent);
            Ok(())
        } else {
            Err(ConsistencyViolation)
        }
    }

    /// The turn conflicts with some turn already accepted here.
    #[verifier::loop_isolation(false)]
    pub fn conflicts_with_accepted(&self, turn: TurnID, map: &MapModel) -> (r: bool)
        requires
            map.wf(),
            self.wf(),
            self.wf_for(*map),
            0 <= turn.0 < map.n_turns(),
        ensures
            r == conflicts_with_accepted_spec(self.acc(), *map, turn),
    {
        proof {
            lemma_agent_map_view(self.accepted.seq());
        }
        let n: usize = self.accepted.len();
        let mut k: usize = 0;
        while k < n
            invariant
                k <= n,
                forall|j: int|
                    0 <= j < k ==> !map.conflicts(
                        ((#[trigger] self.accepted.seq()[j]).1).0 as int,
                        turn.0 as int,
                    ),
            decreases n - k,
        {
            let t: TurnID = self.accepted.entries[k].1;
            proof {
                let a = self.accepted.seq()[k as int].0;
                assert(self.acc().dom().contains(a) && self.acc()[a] == t);
            }
            if map.conflicts_between(t, turn) {
                proof {
                    let a = self.accepted.seq()[k as int].0;
                    assert(self.acc().dom().contains(a) && self.acc()[a] == t);
                }
                return true;
            }
            k = k + 1;
        }
        proof {
            assert forall|a: AgentID| #[trigger] self.acc().dom().contains(a) implies !map.conflicts(
                self.acc()[a].0 as int,
                turn.0 as int,
            ) by {
                let i = choose|i: int|
                    0 <= i < self.accepted.seq().len() && #[trigger] self.accepted.seq()[i] == (
                    a,
                    self.acc()[a],
                );
                assert(!map.conflicts((self.accepted.seq()[i].1).0 as int, turn.0 as int));
            }
        }
        false
    }

    /// Some waiting request with strictly higher priority conflicts with the
    /// turn.
    #[verifier::loop_isolation(false)]
    pub fn conflicts_with_waiting_with_higher_priority(
        &self,
        turn: TurnID,
        map: &MapModel,
    ) -> (r: bool)
        requires
            map.wf(),
            self.wf(),
            self.wf_for(*map),
            0 <= turn.0 < map.n_turns(),
        ensures
            r == blocked_by_higher(self.waiting(), *map, turn),
    {
        proof {
            lemma_wait_map_view(self.started_waiting_at.seq());
        }
        let base_priority = map.priority(turn);
        let n: usize = self.started_waiting_at.len();
        let mut k: usize = 0;
        while k < n
            invariant
                k <= n,
                forall|j: int|
                    0 <= j < k ==> {
                        let rt = ((#[trigger] self.started_waiting_at.seq()[j]).0).turn;
                        !(map.conflicts(rt.0 as int, turn.0 as int) && rank(
                            map.priority_of(rt.0 as int),
                        ) > rank(map.priority_of(turn.0 as int)))
                    },
            decreases n - k,
        {
            let req: Request = self.started_waiting_at.entries[k].0;
            proof {
                assert(self.waiting().dom().contains(req));
            }
            if map.conflicts_between(req.turn, turn) && crate::map_data::priority_gt(
                map.priority(req.turn),
                base_priority,
            ) {
                return true;
            }
            k = k + 1;
        }
        proof {
            assert forall|r: Request| #[trigger] self.waiting().dom().contains(r) implies !(
            map.conflicts(r.turn.0 as int, turn.0 as int) && rank(map.priority_of(r.turn.0 as int))
                > rank(map.priority_of(turn.0 as int))) by {
                let i = choose|i: int|
                    0 <= i < self.started_waiting_at.seq().len()
                        && #[trigger] self.started_waiting_at.seq()[i] == (r, self.waiting()[r]);
                let rt = (self.started_waiting_at.seq()[i].0).turn;
                assert(!(map.conflicts(rt.0 as int, turn.0 as int) && rank(
                    map.priority_of(rt.0 as int),
                ) > rank(map.priority_of(turn.0 as int))));
            }
        }
        false
    }

    /// Runs one admission pass: every waiting request judged against the
    /// accepted set as of the start of the tick is promoted when eligible.
    #[verifier::loop_isolation(false)]
    pub fn step(&mut self, time: u64, map: &MapModel)
        requires
            map.wf(),
            old(self).wf(),
            old(self).wf_for(*map),
            old(self).agents_unique(),
        ensures
            final(self).wf(),
            final(self).id == old(self).id,
            final(self).wf_for(*map),
            final(self).agents_unique(),
            final(self).acc() == stop_step_acc(old(self).acc(), old(self).waiting(), *map, time),
            final(self).waiting() == stop_step_waiting(
                old(self).acc(),
                old(self).waiting(),
                *map,
                time,
            ),
    {
        let ghost acc0 = self.acc();
        let ghost w0 = self.waiting();
        let ghost wseq = self.started_waiting_at.seq();
        proof {
            lemma_wait_map_view(wseq);
        }
        let n: usize = self.started_waiting_at.len();
        let mut newly: Vec<Request> = Vec::new();
        let mut k: usize = 0;
        while k < n
            invariant
                k <= n,
                self == old(self),
                newly@ == eligible_prefix(acc0, w0, *map, time, wseq, k as int),
            decreases n - k,
        {
            let req: Request = self.started_waiting_at.entries[k].0;
            let started: u64 = self.started_waiting_at.entries[k].1;
            proof {
                assert(w0.dom().contains(req) && w0[req] == started);
            }
            let c1 = self.conflicts_with_accepted(req.turn, map);
            let c2 = self.conflicts_with_waiting_with_higher_priority(req.turn, map);
            let pr = map.priority(req.turn);
            let dwell_over = (started as u128) + (WAIT_AT_STOP_SIGN as u128) <= (time as u128);
            if !c1 && !c2 && (!(pr == TurnPriority::Stop) || dwell_over) {
                newly.push(req);
                proof {
                    assert(eligible(acc0, w0, *map, time, req));
                }
            } else {
                proof {
                    assert(!eligible(acc0, w0, *map, time, req));
                }
            }
            k = k + 1;
        }
        let ghost es = newly@;
        proof {
            lemma_eligible_prefix(acc0, w0, *map, time, wseq, n as int);
            assert forall|q1: int, q2: int| 0 <= q1 < q2 < es.len() implies (
            #[trigger] es[q1]).agent != (#[trigger] es[q2]).agent by {
                assert(req_lt(es[q1], es[q2]));
                assert(eligible(acc0, w0, *map, time, es[q1]));
                assert(eligible(acc0, w0, *map, time, es[q2]));
            }
            assert forall|q: int| 0 <= q < es.len() implies !acc0.dom().contains(
                (#[trigger] es[q]).agent,
            ) by {
                assert(eligible(acc0, w0, *map, time, es[q]));
            }
        }
        let nn: usize = newly.len();
        let mut p: usize = 0;
        while p < nn
            invariant
                p <= nn,
                newly@ == es,
                self.id == old(self).id,
                self.started_waiting_at.wf(),
                self.accepted.wf(),
                self.acc() == acc_with(acc0, es, p as int),
                self.waiting() == waiting_without(w0, es, p as int),
            decreases nn - p,
        {
            let req: Request = newly[p];
            self.accepted.insert(req.agent, req.turn);
            self.started_waiting_at.remove(req);
            p = p + 1;
        }
        proof {
            lemma_acc_with(acc0, es, es.len() as int);
            lemma_waiting_without(w0, es, es.len() as int);
            let target_acc = stop_step_acc(acc0, w0, *map, time);
            let target_w = stop_step_waiting(acc0, w0, *map, time);
            assert forall|a: AgentID| #[trigger] self.acc().dom().contains(a)
                implies target_acc.dom().contains(a) && self.acc()[a] == target_acc[a] by {
                if !acc0.dom().contains(a) {
                    let q = choose|q: int| 0 <= q < es.len() && (#[trigger] es[q]).agent == a;
                    assert(eligible(acc0, w0, *map, time, es[q]));
                    assert(self.acc()[a] == es[q].turn);
                    let r = choose|r: Request|
                        #[trigger] eligible(acc0, w0, *map, time, r) && r.agent == a;
                    if r != es[q] {
                        assert(w0.dom().contains(r) && w0.dom().contains(es[q]));
                        assert(r.agent != es[q].agent);
                    }
                    assert(target_acc[a] == r.turn);
                }
            }
            assert forall|a: AgentID| #[trigger] target_acc.dom().contains(a)
                implies self.acc().dom().contains(a) by {
                if !acc0.dom().contains(a) {
                    let r = choose|r: Request|
                        #[trigger] eligible(acc0, w0, *map, time, r) && r.agent == a;
                    let j = choose|j: int|
                        0 <= j < wseq.len() && #[trigger] wseq[j] == (r, w0[r]);
                    assert(eligible(acc0, w0, *map, time, wseq[j].0));
                    assert(es.contains(wseq[j].0));
                    let q = choose|q: int| 0 <= q < es.len() && #[trigger] es[q] == r;
                    assert((es[q]).agent == a);
                }
            }
            assert(self.acc() =~= target_acc);
            assert forall|r: Request| #[trigger] self.waiting().dom().contains(r)
                implies target_w.dom().contains(r) && self.waiting()[r] == target_w[r] by {
                assert(w0.dom().contains(r));
                if eligible(acc0, w0, *map, time, r) {
                    let j = choose|j: int|
                        0 <= j < wseq.len() && #[trigger] wseq[j] == (r, w0[r]);
                    assert(eligible(acc0, w0, *map, time, wseq[j].0));
                    assert(es.contains(wseq[j].0));
                    let q = choose|q: int| 0 <= q < es.len() && #[trigger] es[q] == r;
                    assert(!waiting_without(w0, es, es.len() as int).dom().contains(r));
                }
            }
            assert forall|r: Request| #[trigger] target_w.dom().contains(r)
                implies self.waiting().dom().contains(r) by {
                if exists|q: int| 0 <= q < es.len() && #[trigger] es[q] == r {
                    let q = choose|q: int| 0 <= q < es.len() && #[trigger] es[q] == r;
                    assert(eligible(acc0, w0, *map, time, es[q]));
                }
            }
            assert(self.waiting() =~= target_w);
            assert forall|a: AgentID| #[trigger] self.acc().dom().contains(a) implies 0
                <= self.acc()[a].0 < map.n_turns() && map.parent_of(self.acc()[a].0 as int)
                == self.id by {
                if !acc0.dom().contains(a) {
                    let q = choose|q: int| 0 <= q < es.len() && (#[trigger] es[q]).agent == a;
                    assert(eligible(acc0, w0, *map, time, es[q]));
                    assert(w0.dom().contains(es[q]));
                    assert(self.acc()[a] == es[q].turn);
                }
            }
            assert forall|r1: Request, r2: Request|
                self.waiting().dom().contains(r1) && self.waiting().dom().contains(r2) && r1 != r2
                    implies (#[trigger] r1.agent) != (#[trigger] r2.agent) by {
                assert(w0.dom().contains(r1) && w0.dom().contains(r2));
            }
            assert forall|r: Request| #[trigger] self.waiting().dom().contains(r)
                implies !self.acc().dom().contains(r.agent) by {
                assert(w0.dom().contains(r) && !eligible(acc0, w0, *map, time, r));
                if self.acc().dom().contains(r.agent) {
                    assert(!acc0.dom().contains(r.agent));
                    let rr = choose|rr: Request|
                        #[trigger] eligible(acc0, w0, *map, time, rr) && rr.agent == r.agent;
                    assert(w0.dom().contains(rr));
                    assert(rr != r);
                }
            }
        }
    }
}

} // verus!
