//! Admission policy for a signalized intersection.
//!
//! The signal plan provider supplies, for the current time, the active cycle
//! (the set of turns allowed to move) and the time remaining in it. A pending
//! request is promoted exactly when its turn belongs to the active cycle and
//! the agent can clear the turn, at the fixed speed limit, strictly within the
//! remaining cycle time; every other request keeps waiting for a later cycle.
//! Pending requests carry no priority order.

use crate::error::ConsistencyViolation;
use crate::ids::{req_lt, AgentID, Request, TurnID};
use crate::map_data::MapModel;
use crate::ordered::{
    acc_with, lemma_acc_with, req_set_of, requests_sorted, AgentMap, RequestSet,
};
use crate::stop_sign::accepted_conflict_free;
use vstd::prelude::*;

verus! {

/// Fixed speed at which an agent crosses a turn, in tenths of a meter per
/// tick of a tenth of a second: ten meters per second.
pub const SPEED_LIMIT: u64 = 10;

/// The crossing of turn `t` fits strictly within the remaining cycle time:
/// its length over the fixed speed limit is less than `remaining`.
pub open spec fn crossing_fits(m: MapModel, t: TurnID, remaining: u64) -> bool {
    (m.length_of(t.0 as int) as int) < (remaining as int) * (SPEED_LIMIT as int)
}

/// A pending request is promoted by the step under the given cycle.
pub open spec fn promotes(
    pend: Set<Request>,
    m: MapModel,
    cycle: Seq<TurnID>,
    remaining: u64,
    r: Request,
) -> bool {
    &&& pend.contains(r)
    &&& cycle.contains(r.turn)
    &&& crossing_fits(m, r.turn, remaining)
}

/// The accepted map after one step: the old map, with every promoted request
/// admitted, keyed by agent.
pub open spec fn signal_step_acc(
    acc: Map<AgentID, TurnID>,
    pend: Set<Request>,
    m: MapModel,
    cycle: Seq<TurnID>,
    remaining: u64,
) -> Map<AgentID, TurnID> {
    Map::new(
        |a: AgentID|
            acc.dom().contains(a) || (exists|r: Request|
                #[trigger] promotes(pend, m, cycle, remaining, r) && r.agent == a),
        |a: AgentID|
            if acc.dom().contains(a) {
                acc[a]
            } else {
                (choose|r: Request|
                    #[trigger] promotes(pend, m, cycle, remaining, r) && r.agent == a).turn
            },
    )
}

/// The pending set after one step: the old set without the promoted requests.
pub open spec fn signal_step_pending(
    pend: Set<Request>,
    m: MapModel,
    cycle: Seq<TurnID>,
    remaining: u64,
) -> Set<Request> {
    Set::new(|r: Request| pend.contains(r) && !promotes(pend, m, cycle, remaining, r))
}

/// What submitting a request does to the pending set: a no-op for an agent
/// already accepted, else membership.
pub open spec fn submit_pending_spec(
    acc: Map<AgentID, TurnID>,
    pend: Set<Request>,
    req: Request,
) -> Set<Request> {
    if acc.dom().contains(req.agent) {
        pend
    } else {
        pend.insert(req)
    }
}

/// The promoted requests among the first `k` pending ones, in canonical
/// order.
pub open spec fn promoted_prefix(
    pend: Set<Request>,
    m: MapModel,
    cycle: Seq<TurnID>,
    remaining: u64,
    s: Seq<Request>,
    k: int,
) -> Seq<Request>
    decreases k,
{
    if k <= 0 {
        Seq::empty()
    } else {
        let rest = promoted_prefix(pend, m, cycle, remaining, s, k - 1);
        if promotes(pend, m, cycle, remaining, s[k - 1]) {
            rest.push(s[k - 1])
        } else {
            rest
        }
    }
}

/// The kept requests among the first `k` pending ones, in canonical order.
pub open spec fn kept_prefix(
    pend: Set<Request>,
    m: MapModel,
    cycle: Seq<TurnID>,
    remaining: u64,
    s: Seq<Request>,
    k: int,
) -> Seq<Request>
    decreases k,
{
    if k <= 0 {
        Seq::empty()
    } else {
        let rest = kept_prefix(pend, m, cycle, remaining, s, k - 1);
        if promotes(pend, m, cycle, remaining, s[k - 1]) {
            rest
        } else {
            rest.push(s[k - 1])
        }
    }
}

/// The two prefixes split the first `k` pending requests exactly by the
/// promotion condition and keep the canonical order.
pub proof fn lemma_signal_prefixes(
    pend: Set<Request>,
    m: MapModel,
    cycle: Seq<TurnID>,
    remaining: u64,
    s: Seq<Request>,
    k: int,
)
    requires
        0 <= k <= s.len(),
        requests_sorted(s),
    ensures
        forall|p: int|
            0 <= p < promoted_prefix(pend, m, cycle, remaining, s, k).len() ==> promotes(
                pend,
                m,
                cycle,
                remaining,
                #[trigger] promoted_prefix(pend, m, cycle, remaining, s, k)[p],
            ),
        forall|j: int|
            0 <= j < k && promotes(pend, m, cycle, remaining, #[trigger] s[j]) ==> promoted_prefix(
                pend,
                m,
                cycle,
                remaining,
                s,
                k,
            ).contains(s[j]),
        forall|p: int|
            0 <= p < promoted_prefix(pend, m, cycle, remaining, s, k).len() ==> exists|j: int|
                0 <= j < k && #[trigger] s[j] == #[trigger] promoted_prefix(
                    pend,
                    m,
                    cycle,
                    remaining,
                    s,
                    k,
                )[p],
        forall|p1: int, p2: int|
            0 <= p1 < p2 < promoted_prefix(pend, m, cycle, remaining, s, k).len() ==> req_lt(
                #[trigger] promoted_prefix(pend, m, cycle, remaining, s, k)[p1],
                #[trigger] promoted_prefix(pend, m, cycle, remaining, s, k)[p2],
            ),
        forall|p: int|
            0 <= p < kept_prefix(pend, m, cycle, remaining, s, k).len() ==> !promotes(
                pend,
                m,
                cycle,
                remaining,
                #[trigger] kept_prefix(pend, m, cycle, remaining, s, k)[p],
            ),
        forall|j: int|
            0 <= j < k && !promotes(pend, m, cycle, remaining, #[trigger] s[j]) ==> kept_prefix(
                pend,
                m,
                cycle,
                remaining,
                s,
                k,
            ).contains(s[j]),
        forall|p: int|
            0 <= p < kept_prefix(pend, m, cycle, remaining, s, k).len() ==> exists|j: int|
                0 <= j < k && #[trigger] s[j] == #[trigger] kept_prefix(
                    pend,
                    m,
                    cycle,
                    remaining,
                    s,
                    k,
                )[p],
        forall|p1: int, p2: int|
            0 <= p1 < p2 < kept_prefix(pend, m, cycle, remaining, s, k).len() ==> req_lt(
                #[trigger] kept_prefix(pend, m, cycle, remaining, s, k)[p1],
                #[trigger] kept_prefix(pend, m, cycle, remaining, s, k)[p2],
            ),
    decreases k,
{
    if k > 0 {
        lemma_signal_prefixes(pend, m, cycle, remaining, s, k - 1);
        let pprev = promoted_prefix(pend, m, cycle, remaining, s, k - 1);
        let pcur = promoted_prefix(pend, m, cycle, remaining, s, k);
        let kprev = kept_prefix(pend, m, cycle, remaining, s, k - 1);
        let kcur = kept_prefix(pend, m, cycle, remaining, s, k);
        if promotes(pend, m, cycle, remaining, s[k - 1]) {
            assert(pcur == pprev.push(s[k - 1]) && kcur == kprev);
            assert forall|j: int|
                0 <= j < k && promotes(pend, m, cycle, remaining, #[trigger] s[j])
                implies pcur.contains(s[j]) by {
                if j == k - 1 {
                    assert(pcur[pcur.len() - 1] == s[k - 1]);
                } else {
                    assert(pprev.contains(s[j]));
                    let p = choose|p: int| 0 <= p < pprev.len() && pprev[p] == s[j];
                    assert(pcur[p] == s[j]);
                }
            }
            assert forall|j: int|
                0 <= j < k && !promotes(pend, m, cycle, remaining, #[trigger] s[j])
                implies kcur.contains(s[j]) by {
                assert(j != k - 1);
                assert(kprev.contains(s[j]));
            }
            assert forall|p1: int, p2: int| 0 <= p1 < p2 < pcur.len() implies req_lt(
                #[trigger] pcur[p1],
                #[trigger] pcur[p2],
            ) by {
                if p2 == pcur.len() - 1 {
                    let j = choose|j: int| 0 <= j < k - 1 && #[trigger] s[j] == pprev[p1];
                    assert(req_lt(s[j], s[k - 1]));
                }
            }
        } else {
            assert(pcur == pprev && kcur == kprev.push(s[k - 1]));
            assert forall|j: int|
                0 <= j < k && promotes(pend, m, cycle, remaining, #[trigger] s[j])
                implies pcur.contains(s[j]) by {
                assert(j != k - 1);
                assert(pprev.contains(s[j]));
            }
            assert forall|j: int|
                0 <= j < k && !promotes(pend, m, cycle, remaining, #[trigger] s[j])
                implies kcur.contains(s[j]) by {
                if j == k - 1 {
                    assert(kcur[kcur.len() - 1] == s[k - 1]);
                } else {
                    assert(kprev.contains(s[j]));
                    let p = choose|p: int| 0 <= p < kprev.len() && kprev[p] == s[j];
                    assert(kcur[p] == s[j]);
                }
            }
            assert forall|p1: int, p2: int| 0 <= p1 < p2 < kcur.len() implies req_lt(
                #[trigger] kcur[p1],
                #[trigger] kcur[p2],
            ) by {
                if p2 == kcur.len() - 1 {
                    let j = choose|j: int| 0 <= j < k - 1 && #[trigger] s[j] == kprev[p1];
                    assert(req_lt(s[j], s[k - 1]));
                }
            }
        }
    }
}

/// Whether a turn belongs to the active cycle.
#[verifier::loop_isolation(false)]
fn cycle_contains(cycle: &Vec<TurnID>, t: TurnID) -> (r: bool)
    ensures
        r == cycle@.contains(t),
{
    let n: usize = cycle.len();
    let mut k: usize = 0;
    while k < n
        invariant
            k <= n,
            forall|j: int| 0 <= j < k ==> #[trigger] cycle@[j] != t,
        decreases n - k,
    {
        if cycle[k] == t {
            return true;
        }
        k = k + 1;
    }
    false
}

/// Policy state of one signalized intersection.
pub struct TrafficSignal {
    pub id: usize,
    pub accepted: AgentMap,
    pub requests: RequestSet,
}

impl TrafficSignal {
    /// The pending requests.
    pub open spec fn pending(self) -> Set<Request> {
        self.requests.as_set()
    }

    /// The accepted turn of each admitted agent.
    pub open spec fn acc(self) -> Map<AgentID, TurnID> {
        self.accepted.as_map()
    }

    /// Both containers hold their canonical order.
    pub open spec fn wf(self) -> bool {
        self.requests.wf() && self.accepted.wf()
    }

    /// Every turn on record belongs to this intersection and to the map.
    pub open spec fn wf_for(self, m: MapModel) -> bool {
        &&& 0 <= self.id < m.n_ints()
        &&& forall|r: Request|
            #[trigger] self.pending().contains(r) ==> 0 <= r.turn.0 < m.n_turns()
                && m.parent_of(r.turn.0 as int) == self.id
        &&& forall|a: AgentID|
            #[trigger] self.acc().dom().contains(a) ==> 0 <= self.acc()[a].0 < m.n_turns()
                && m.parent_of(self.acc()[a].0 as int) == self.id
    }

    /// The calling protocol's guarantee: an agent has at most one outstanding
    /// request here.
    pub open spec fn agents_unique(self) -> bool {
        &&& forall|r: Request|
            #[trigger] self.pending().contains(r) ==> !self.acc().dom().contains(r.agent)
        &&& forall|r1: Request, r2: Request|
            self.pending().contains(r1) && self.pending().contains(r2) && r1 != r2 ==> (
            #[trigger] r1.agent) != (#[trigger] r2.agent)
    }

    /// An idle policy for intersection `id`.
    pub fn new(id: usize) -> (r: TrafficSignal)
        ensures
            r.wf(),
            r.id == id,
            r.pending() == Set::<Request>::empty(),
            r.acc() == Map::<AgentID, TurnID>::empty(),
            r.agents_unique(),
    {
        TrafficSignal { id, accepted: AgentMap::new(), requests: RequestSet::new() }
    }

    /// Whether the request holds its granted slot.
    pub fn granted(&self, req: Request) -> (r: bool)
        requires
            self.wf(),
        ensures
            r == (self.acc().dom().contains(req.agent) && self.acc()[req.agent] == req.turn),
    {
        match self.accepted.get(req.agent) {
            Some(t) => t == req.turn,
            None => false,
        }
    }

    /// Enqueues a request; idempotent, as the pending set has no clock.
    pub fn submit(&mut self, req: Request) -> (r: Result<(), ConsistencyViolation>)
        requires
            old(self).wf(),
        ensures
            final(self).wf(),
            final(self).id == old(self).id,
            final(self).acc() == old(self).acc(),
            final(self).pending() == submit_pending_spec(old(self).acc(), old(self).pending(), req),
            r is Ok <==> (old(self).acc().dom().contains(req.agent) ==> old(self).acc()[req.agent]
                == req.turn),
            old(self).agents_unique() && (forall|r2: Request|
                old(self).pending().contains(r2) && r2.agent == req.agent ==> r2 == req)
                ==> final(self).agents_unique(),
    {
        match self.accepted.get(req.agent) {
            Some(t) => {
                if t == req.turn {
                    Ok(())
                } else {
                    Err(ConsistencyViolation)
                }
            },
            None => {
                self.requests.insert(req);
                Ok(())
            },
        }
    }

    /// Asserts that the entering agent holds the slot; mutates nothing.
    pub fn on_enter(&self, req: Request) -> (r: Result<(), ConsistencyViolation>)
        requires
            self.wf(),
        ensures
            r is Ok <==> (self.acc().dom().contains(req.agent) && self.acc()[req.agent]
                == req.turn),
    {
        if self.granted(req) {
            Ok(())
        } else {
            Err(ConsistencyViolation)
        }
    }

    /// Releases the slot of the exiting agent.
    pub fn on_exit(&mut self, req: Request) -> (r: Result<(), ConsistencyViolation>)
        requires
            old(self).wf(),
        ensures
            final(self).wf(),
            final(self).id == old(self).id,
            final(self).pending() == old(self).pending(),
            r is Ok <==> (old(self).acc().dom().contains(req.agent) && old(self).acc()[req.agent]
                == req.turn),
            final(self).acc() == if old(self).acc().dom().contains(req.agent) && old(
                self,
            ).acc()[req.agent] == req.turn {
                old(self).acc().remove(req.agent)
            } else {
                old(self).acc()
            },
    {
        if self.granted(req) {
            self.accepted.remove(req.agent);
            Ok(())
        } else {
            Err(ConsistencyViolation)
        }
    }

    /// Runs one admission pass under the active cycle and its remaining time,
    /// as the signal plan provider reports them for the current instant.
    #[verifier::loop_isolation(false)]
    pub fn step(&mut self, map: &MapModel, cycle: &Vec<TurnID>, remaining: u64)
        requires
            map.wf(),
            old(self).wf(),
            old(self).wf_for(*map),
            old(self).agents_unique(),
        ensures
            final(self).wf(),
            final(self).id == old(self).id,
            final(self).wf_for(*map),
            final(self).agents_unique(),
            final(self).acc() == signal_step_acc(
                old(self).acc(),
                old(self).pending(),
                *map,
                cycle@,
                remaining,
            ),
            final(self).pending() == signal_step_pending(
                old(self).pending(),
                *map,
                cycle@,
                remaining,
            ),
    {
        let ghost acc0 = self.acc();
        let ghost pend0 = self.pending();
        let ghost pseq = self.requests.seq();
        let n: usize = self.requests.len();
        let mut promoted: Vec<Request> = Vec::new();
        let mut kept: Vec<Request> = Vec::new();
        let mut k: usize = 0;
        while k < n
            invariant
                k <= n,
                self == old(self),
                promoted@ == promoted_prefix(pend0, *map, cycle@, remaining, pseq, k as int),
                kept@ == kept_prefix(pend0, *map, cycle@, remaining, pseq, k as int),
            decreases n - k,
        {
            let req: Request = self.requests.entries[k];
            proof {
                assert(pend0.contains(req));
            }
            let in_cycle = cycle_contains(cycle, req.turn);
            let fits = (map.length(req.turn) as u128) < (remaining as u128) * (
            SPEED_LIMIT as u128);
            if in_cycle && fits {
                promoted.push(req);
                proof {
                    assert(promotes(pend0, *map, cycle@, remaining, req));
                }
            } else {
                kept.push(req);
                proof {
                    assert(!promotes(pend0, *map, cycle@, remaining, req));
                }
            }
            k = k + 1;
        }
        let ghost ps = promoted@;
        let ghost ks = kept@;
        proof {
            lemma_signal_prefixes(pend0, *map, cycle@, remaining, pseq, n as int);
            assert forall|q1: int, q2: int| 0 <= q1 < q2 < ps.len() implies (
            #[trigger] ps[q1]).agent != (#[trigger] ps[q2]).agent by {
                assert(req_lt(ps[q1], ps[q2]));
                assert(promotes(pend0, *map, cycle@, remaining, ps[q1]));
                assert(promotes(pend0, *map, cycle@, remaining, ps[q2]));
            }
            assert forall|q: int| 0 <= q < ps.len() implies !acc0.dom().contains(
                (#[trigger] ps[q]).agent,
            ) by {
                assert(promotes(pend0, *map, cycle@, remaining, ps[q]));
            }
        }
        let nn: usize = promoted.len();
        let mut p: usize = 0;
        while p < nn
            invariant
                p <= nn,
                promoted@ == ps,
                self.id == old(self).id,
                self.requests == old(self).requests,
                self.accepted.wf(),
                self.acc() == acc_with(acc0, ps, p as int),
            decreases nn - p,
        {
            let req: Request = promoted[p];
            self.accepted.insert(req.agent, req.turn);
            p = p + 1;
        }
        self.requests = RequestSet { entries: kept };
        proof {
            lemma_acc_with(acc0, ps, ps.len() as int);
            let target_acc = signal_step_acc(acc0, pend0, *map, cycle@, remaining);
            let target_p = signal_step_pending(pend0, *map, cycle@, remaining);
            assert forall|a: AgentID| #[trigger] self.acc().dom().contains(a)
                implies target_acc.dom().contains(a) && self.acc()[a] == target_acc[a] by {
                if !acc0.dom().contains(a) {
                    let q = choose|q: int| 0 <= q < ps.len() && (#[trigger] ps[q]).agent == a;
                    assert(promotes(pend0, *map, cycle@, remaining, ps[q]));
                    assert(self.acc()[a] == ps[q].turn);
                    let r = choose|r: Request|
                        #[trigger] promotes(pend0, *map, cycle@, remaining, r) && r.agent == a;
                    if r != ps[q] {
                        assert(pend0.contains(r) && pend0.contains(ps[q]));
                        assert(r.agent != ps[q].agent);
                    }
                    assert(target_acc[a] == r.turn);
                }
            }
            assert forall|a: AgentID| #[trigger] target_acc.dom().contains(a)
                implies self.acc().dom().contains(a) by {
                if !acc0.dom().contains(a) {
                    let r = choose|r: Request|
                        #[trigger] promotes(pend0, *map, cycle@, remaining, r) && r.agent == a;
                    let j = choose|j: int| 0 <= j < pseq.len() && #[trigger] pseq[j] == r;
                    assert(promotes(pend0, *map, cycle@, remaining, pseq[j]));
                    assert(ps.contains(pseq[j]));
                    let q = choose|q: int| 0 <= q < ps.len() && #[trigger] ps[q] == r;
                    assert((ps[q]).agent == a);
                }
            }
            assert(self.acc() =~= target_acc);
            assert forall|r: Request| #[trigger] self.pending().contains(r)
                implies target_p.contains(r) by {
                let q = choose|q: int| 0 <= q < ks.len() && #[trigger] ks[q] == r;
                assert(!promotes(pend0, *map, cycle@, remaining, ks[q]));
                let j = choose|j: int| 0 <= j < pseq.len() && #[trigger] pseq[j] == ks[q];
                assert(pend0.contains(pseq[j]));
            }
            assert forall|r: Request| #[trigger] target_p.contains(r)
                implies self.pending().contains(r) by {
                let j = choose|j: int| 0 <= j < pseq.len() && #[trigger] pseq[j] == r;
                assert(!promotes(pend0, *map, cycle@, remaining, pseq[j]));
                assert(ks.contains(pseq[j]));
            }
            assert(self.pending() =~= target_p);
            assert forall|a: AgentID| #[trigger] self.acc().dom().contains(a) implies 0
                <= self.acc()[a].0 < map.n_turns() && map.parent_of(self.acc()[a].0 as int)
                == self.id by {
                if !acc0.dom().contains(a) {
                    let q = choose|q: int| 0 <= q < ps.len() && (#[trigger] ps[q]).agent == a;
                    assert(promotes(pend0, *map, cycle@, remaining, ps[q]));
                    assert(pend0.contains(ps[q]));
                    assert(self.acc()[a] == ps[q].turn);
                }
            }
            assert forall|r: Request| #[trigger] self.pending().contains(r)
                implies !self.acc().dom().contains(r.agent) by {
                assert(pend0.contains(r) && !promotes(pend0, *map, cycle@, remaining, r));
                if self.acc().dom().contains(r.agent) {
                    assert(!acc0.dom().contains(r.agent));
                    let rr = choose|rr: Request|
                        #[trigger] promotes(pend0, *map, cycle@, remaining, rr) && rr.agent
                            == r.agent;
                    assert(pend0.contains(rr));
                    assert(rr != r);
                }
            }
        }
    }
}

/// Cycle-window respect: a pending request whose turn is off-cycle, or whose
/// crossing does not fit in the remaining time, stays pending and its agent
/// is not admitted by the step.
pub proof fn lemma_cycle_window(
    acc: Map<AgentID, TurnID>,
    pend: Set<Request>,
    m: MapModel,
    cycle: Seq<TurnID>,
    remaining: u64,
    r: Request,
)
    requires
        pend.contains(r),
        !(cycle.contains(r.turn) && crossing_fits(m, r.turn, remaining)),
        !acc.dom().contains(r.agent),
        forall|r1: Request, r2: Request|
            pend.contains(r1) && pend.contains(r2) && r1 != r2 ==> (#[trigger] r1.agent) != (
            #[trigger] r2.agent),
    ensures
        !promotes(pend, m, cycle, remaining, r),
        signal_step_pending(pend, m, cycle, remaining).contains(r),
        !signal_step_acc(acc, pend, m, cycle, remaining).dom().contains(r.agent),
{
    if signal_step_acc(acc, pend, m, cycle, remaining).dom().contains(r.agent) {
        let rr = choose|rr: Request|
            #[trigger] promotes(pend, m, cycle, remaining, rr) && rr.agent == r.agent;
        assert(pend.contains(rr));
        assert(rr == r);
    }
}

/// The active cycle's turns are pairwise compatible and compatible with
/// everything accepted. A cycle holding two conflicting turns is the one
/// input the policy itself does not guard against: it trusts the signal
/// plan, and does not watch for agents still inside from an earlier cycle.
pub open spec fn cycle_compatible(
    acc: Map<AgentID, TurnID>,
    cycle: Seq<TurnID>,
    m: MapModel,
) -> bool {
    &&& forall|t1: TurnID, t2: TurnID|
        #[trigger] cycle.contains(t1) && #[trigger] cycle.contains(t2) ==> !m.conflicts(
            t1.0 as int,
            t2.0 as int,
        )
    &&& forall|a: AgentID, t: TurnID|
        #[trigger] acc.dom().contains(a) && #[trigger] cycle.contains(t) ==> !m.conflicts(
            acc[a].0 as int,
            t.0 as int,
        )
}

/// Conflict-freedom under a signal: when the accepted set is conflict-free
/// and the active cycle is compatible with itself and with everything
/// accepted, the accepted set after a step is again conflict-free.
pub proof fn lemma_signal_step_conflict_free(
    acc: Map<AgentID, TurnID>,
    pend: Set<Request>,
    m: MapModel,
    cycle: Seq<TurnID>,
    remaining: u64,
)
    requires
        m.wf(),
        accepted_conflict_free(acc, m),
        cycle_compatible(acc, cycle, m),
        forall|a: AgentID| #[trigger] acc.dom().contains(a) ==> 0 <= acc[a].0 < m.n_turns(),
        forall|r: Request| #[trigger] pend.contains(r) ==> 0 <= r.turn.0 < m.n_turns(),
    ensures
        accepted_conflict_free(signal_step_acc(acc, pend, m, cycle, remaining), m),
{
    let na = signal_step_acc(acc, pend, m, cycle, remaining);
    assert forall|a1: AgentID, a2: AgentID|
        na.dom().contains(a1) && na.dom().contains(a2) && a1 != a2 implies !m.conflicts(
        (#[trigger] na[a1]).0 as int,
        (#[trigger] na[a2]).0 as int,
    ) by {
        if acc.dom().contains(a1) && acc.dom().contains(a2) {
            assert(!m.conflicts(acc[a1].0 as int, acc[a2].0 as int));
        } else if acc.dom().contains(a1) {
            let r2 = choose|r: Request|
                #[trigger] promotes(pend, m, cycle, remaining, r) && r.agent == a2;
            assert(na[a2] == r2.turn);
            assert(!m.conflicts(acc[a1].0 as int, r2.turn.0 as int));
            assert(m.conflicts(r2.turn.0 as int, acc[a1].0 as int) == m.conflicts(
                acc[a1].0 as int,
                r2.turn.0 as int,
            ));
        } else if acc.dom().contains(a2) {
            let r1 = choose|r: Request|
                #[trigger] promotes(pend, m, cycle, remaining, r) && r.agent == a1;
            assert(na[a1] == r1.turn);
            assert(!m.conflicts(acc[a2].0 as int, r1.turn.0 as int));
        } else {
            let r1 = choose|r: Request|
                #[trigger] promotes(pend, m, cycle, remaining, r) && r.agent == a1;
            let r2 = choose|r: Request|
                #[trigger] promotes(pend, m, cycle, remaining, r) && r.agent == a2;
            assert(na[a1] == r1.turn && na[a2] == r2.turn);
            assert(cycle.contains(r1.turn) && cycle.contains(r2.turn));
        }
    }
}

/// Idempotent submission under a signal: submitting the same request twice
/// leaves the pending set as the first submission left it.
pub proof fn lemma_signal_submit_idempotent(
    acc: Map<AgentID, TurnID>,
    pend: Set<Request>,
    req: Request,
)
    ensures
        submit_pending_spec(acc, submit_pending_spec(acc, pend, req), req) == submit_pending_spec(
            acc,
            pend,
            req,
        ),
{
    assert(submit_pending_spec(acc, submit_pending_spec(acc, pend, req), req)
        =~= submit_pending_spec(acc, pend, req));
}

/// Order-independent submission under a signal.
pub proof fn lemma_signal_submit_commutes(
    acc: Map<AgentID, TurnID>,
    pend: Set<Request>,
    r1: Request,
    r2: Request,
)
    ensures
        submit_pending_spec(acc, submit_pending_spec(acc, pend, r1), r2) == submit_pending_spec(
            acc,
            submit_pending_spec(acc, pend, r2),
            r1,
        ),
{
    assert(submit_pending_spec(acc, submit_pending_spec(acc, pend, r1), r2)
        =~= submit_pending_spec(acc, submit_pending_spec(acc, pend, r2), r1));
}

} // verus!
