//! Deterministic snapshot codec for the registry.
//!
//! The whole engine state is written as a flat sequence of 64-bit words:
//! the number of intersections, then one length-framed block per policy.
//! Because every container is value-ordered, the encoding is a function of
//! the logical content alone: two states with the same contents serialize
//! identically, and equal encodings have equal contents.

use crate::ids::{agent_before, agent_lt, req_before, req_lt, AgentID, CarID, PedestrianID, Request, TurnID};
use crate::ordered::{
    agent_entries_sorted, lemma_agent_entries_canonical, lemma_requests_canonical,
    lemma_wait_entries_canonical, requests_sorted, wait_entries_sorted, AgentMap, RequestSet,
    WaitQueue,
};
use crate::registry::{IntersectionPolicy, IntersectionSimState};
use crate::stop_sign::StopSign;
use crate::traffic_signal::TrafficSignal;
use vstd::prelude::*;

verus! {

/// Two words for an agent: a tag, then its number.
pub open spec fn encode_agent(a: AgentID) -> Seq<u64> {
    match a {
        AgentID::Car(c) => seq![0u64, c.0 as u64],
        AgentID::Pedestrian(p) => seq![1u64, p.0 as u64],
    }
}

/// Three words per accepted entry: agent, then turn.
pub open spec fn encode_acc_entries(s: Seq<(AgentID, TurnID)>) -> Seq<u64>
    decreases s.len(),
{
    if s.len() == 0 {
        Seq::empty()
    } else {
        encode_acc_entries(s.drop_last()) + encode_agent(s.last().0) + seq![(s.last().1).0 as u64]
    }
}

/// Four words per waiting entry: agent, turn, then the tick first seen.
pub open spec fn encode_wait_entries(s: Seq<(Request, u64)>) -> Seq<u64>
    decreases s.len(),
{
    if s.len() == 0 {
        Seq::empty()
    } else {
        encode_wait_entries(s.drop_last()) + encode_agent(s.last().0.agent) + seq![
            (s.last().0.turn).0 as u64,
            s.last().1,
        ]
    }
}

/// Three words per pending request: agent, then turn.
pub open spec fn encode_req_entries(s: Seq<Request>) -> Seq<u64>
    decreases s.len(),
{
    if s.len() == 0 {
        Seq::empty()
    } else {
        encode_req_entries(s.drop_last()) + encode_agent(s.last().agent) + seq![
            (s.last().turn).0 as u64,
        ]
    }
}

/// One policy: a regime tag, the intersection number, then each container
/// behind its entry count. The stop sign writes its waiting map first; the
/// signal writes its accepted map first, as the fields stand.
pub open spec fn encode_policy(p: IntersectionPolicy) -> Seq<u64> {
    match p {
        IntersectionPolicy::StopSignPolicy(s) => seq![
            0u64,
            s.id as u64,
            s.started_waiting_at.seq().len() as u64,
        ] + encode_wait_entries(s.started_waiting_at.seq()) + seq![s.accepted.seq().len() as u64]
            + encode_acc_entries(s.accepted.seq()),
        IntersectionPolicy::TrafficSignalPolicy(t) => seq![
            1u64,
            t.id as u64,
            t.accepted.seq().len() as u64,
        ] + encode_acc_entries(t.accepted.seq()) + seq![t.requests.seq().len() as u64]
            + encode_req_entries(t.requests.seq()),
    }
}

/// The policies in order, each block preceded by its own length.
pub open spec fn encode_policies(s: Seq<IntersectionPolicy>) -> Seq<u64>
    decreases s.len(),
{
    if s.len() == 0 {
        Seq::empty()
    } else {
        seq![encode_policy(s[0]).len() as u64] + encode_policy(s[0]) + encode_policies(
            s.drop_first(),
        )
    }
}

/// The whole engine state.
pub open spec fn encode_state(st: IntersectionSimState) -> Seq<u64> {
    seq![st.policies().len() as u64] + encode_policies(st.policies())
}

/// Splitting a policy sequence splits its encoding.
pub proof fn lemma_encode_policies_append(s1: Seq<IntersectionPolicy>, s2: Seq<IntersectionPolicy>)
    ensures
        encode_policies(s1 + s2) == encode_policies(s1) + encode_policies(s2),
    decreases s1.len(),
{
    if s1.len() == 0 {
        assert(s1 + s2 =~= s2);
        assert(encode_policies(s1) + encode_policies(s2) =~= encode_policies(s2));
    } else {
        assert((s1 + s2).drop_first() =~= s1.drop_first() + s2);
        lemma_encode_policies_append(s1.drop_first(), s2);
        assert((s1 + s2)[0] == s1[0]);
        assert(encode_policies(s1 + s2) =~= encode_policies(s1) + encode_policies(s2));
    }
}

/// Appends the agent words.
fn push_agent(out: &mut Vec<u64>, a: AgentID)
    ensures
        final(out)@ == old(out)@ + encode_agent(a),
{
    match a {
        AgentID::Car(c) => {
            out.push(0u64);
            out.push(c.0 as u64);
        },
        AgentID::Pedestrian(p) => {
            out.push(1u64);
            out.push(p.0 as u64);
        },
    }
    proof {
        assert(out@ =~= old(out)@ + encode_agent(a));
    }
}

/// Appends an accepted map.
#[verifier::loop_isolation(false)]
fn push_acc_entries(out: &mut Vec<u64>, m: &AgentMap)
    ensures
        final(out)@ == old(out)@ + encode_acc_entries(m.seq()),
{
    let n: usize = m.entries.len();
    let mut k: usize = 0;
    while k < n
        invariant
            k <= n,
            out@ == old(out)@ + encode_acc_entries(m.seq().take(k as int)),
        decreases n - k,
    {
        let pair = m.entries[k];
        push_agent(out, pair.0);
        out.push((pair.1).0 as u64);
        proof {
            let taken = m.seq().take(k as int + 1);
            assert(taken.drop_last() =~= m.seq().take(k as int));
            assert(taken.last() == m.seq()[k as int]);
            assert(out@ =~= old(out)@ + encode_acc_entries(taken));
        }
        k = k + 1;
    }
    proof {
        assert(m.seq().take(n as int) =~= m.seq());
    }
}

/// Appends a waiting map.
#[verifier::loop_isolation(false)]
fn push_wait_entries(out: &mut Vec<u64>, m: &WaitQueue)
    ensures
        final(out)@ == old(out)@ + encode_wait_entries(m.seq()),
{
    let n: usize = m.entries.len();
    let mut k: usize = 0;
    while k < n
        invariant
            k <= n,
            out@ == old(out)@ + encode_wait_entries(m.seq().take(k as int)),
        decreases n - k,
    {
        let pair = m.entries[k];
        push_agent(out, pair.0.agent);
        out.push((pair.0.turn).0 as u64);
        out.push(pair.1);
        proof {
            let taken = m.seq().take(k as int + 1);
            assert(taken.drop_last() =~= m.seq().take(k as int));
            assert(taken.last() == m.seq()[k as int]);
            assert(out@ =~= old(out)@ + encode_wait_entries(taken));
        }
        k = k + 1;
    }
    proof {
        assert(m.seq().take(n as int) =~= m.seq());
    }
}

/// Appends a pending set.
#[verifier::loop_isolation(false)]
fn push_req_entries(out: &mut Vec<u64>, m: &RequestSet)
    ensures
        final(out)@ == old(out)@ + encode_req_entries(m.seq()),
{
    let n: usize = m.entries.len();
    let mut k: usize = 0;
    while k < n
        invariant
            k <= n,
            out@ == old(out)@ + encode_req_entries(m.seq().take(k as int)),
        decreases n - k,
    {
        let req = m.entries[k];
        push_agent(out, req.agent);
        out.push((req.turn).0 as u64);
        proof {
            let taken = m.seq().take(k as int + 1);
            assert(taken.drop_last() =~= m.seq().take(k as int));
            assert(taken.last() == m.seq()[k as int]);
            assert(out@ =~= old(out)@ + encode_req_entries(taken));
        }
        k = k + 1;
    }
    proof {
        assert(m.seq().take(n as int) =~= m.seq());
    }
}

/// Encodes one policy block, without its frame.
fn encode_policy_block(p: &IntersectionPolicy) -> (out: Vec<u64>)
    ensures
        out@ == encode_policy(*p),
{
    let mut out: Vec<u64> = Vec::new();
    match p {
        IntersectionPolicy::StopSignPolicy(s) => {
            out.push(0u64);
            out.push(s.id as u64);
            out.push(s.started_waiting_at.len() as u64);
            push_wait_entries(&mut out, &s.started_waiting_at);
            out.push(s.accepted.len() as u64);
            push_acc_entries(&mut out, &s.accepted);
            proof {
                assert(out@ =~= encode_policy(*p));
            }
        },
        IntersectionPolicy::TrafficSignalPolicy(t) => {
            out.push(1u64);
            out.push(t.id as u64);
            out.push(t.accepted.len() as u64);
            push_acc_entries(&mut out, &t.accepted);
            out.push(t.requests.len() as u64);
            push_req_entries(&mut out, &t.requests);
            proof {
                assert(out@ =~= encode_policy(*p));
            }
        },
    }
    out
}

/// The waiting entries a policy holds; empty under a signal.
pub open spec fn policy_wait_seq(p: IntersectionPolicy) -> Seq<(Request, u64)> {
    match p {
        IntersectionPolicy::StopSignPolicy(s) => s.started_waiting_at.seq(),
        IntersectionPolicy::TrafficSignalPolicy(_) => Seq::empty(),
    }
}

/// The accepted entries a policy holds.
pub open spec fn policy_acc_seq(p: IntersectionPolicy) -> Seq<(AgentID, TurnID)> {
    match p {
        IntersectionPolicy::StopSignPolicy(s) => s.accepted.seq(),
        IntersectionPolicy::TrafficSignalPolicy(t) => t.accepted.seq(),
    }
}

/// The pending requests a policy holds; empty under a stop sign.
pub open spec fn policy_req_seq(p: IntersectionPolicy) -> Seq<Request> {
    match p {
        IntersectionPolicy::StopSignPolicy(_) => Seq::empty(),
        IntersectionPolicy::TrafficSignalPolicy(t) => t.requests.seq(),
    }
}

/// Accepted entries occupy three words each.
proof fn lemma_acc_entries_len(s: Seq<(AgentID, TurnID)>)
    ensures
        encode_acc_entries(s).len() == 3 * s.len(),
    decreases s.len(),
{
    if s.len() > 0 {
        lemma_acc_entries_len(s.drop_last());
    }
}

/// Waiting entries occupy four words each.
proof fn lemma_wait_entries_len(s: Seq<(Request, u64)>)
    ensures
        encode_wait_entries(s).len() == 4 * s.len(),
    decreases s.len(),
{
    if s.len() > 0 {
        lemma_wait_entries_len(s.drop_last());
    }
}

/// Pending requests occupy three words each.
proof fn lemma_req_entries_len(s: Seq<Request>)
    ensures
        encode_req_entries(s).len() == 3 * s.len(),
    decreases s.len(),
{
    if s.len() > 0 {
        lemma_req_entries_len(s.drop_last());
    }
}

/// The words of one accepted record inside the block.
proof fn lemma_acc_entries_index(s: Seq<(AgentID, TurnID)>, q: int)
    requires
        0 <= q < s.len(),
    ensures
        encode_acc_entries(s).len() == 3 * s.len(),
        encode_acc_entries(s)[3 * q] == encode_agent(s[q].0)[0],
        encode_acc_entries(s)[3 * q + 1] == encode_agent(s[q].0)[1],
        encode_acc_entries(s)[3 * q + 2] == (s[q].1).0 as u64,
    decreases s.len(),
{
    lemma_acc_entries_len(s);
    lemma_acc_entries_len(s.drop_last());
    assert(encode_agent(s.last().0).len() == 2);
    if q < s.len() - 1 {
        lemma_acc_entries_index(s.drop_last(), q);
        assert(s.drop_last()[q] == s[q]);
    }
}

/// The words of one waiting record inside the block.
proof fn lemma_wait_entries_index(s: Seq<(Request, u64)>, q: int)
    requires
        0 <= q < s.len(),
    ensures
        encode_wait_entries(s).len() == 4 * s.len(),
        encode_wait_entries(s)[4 * q] == encode_agent(s[q].0.agent)[0],
        encode_wait_entries(s)[4 * q + 1] == encode_agent(s[q].0.agent)[1],
        encode_wait_entries(s)[4 * q + 2] == (s[q].0.turn).0 as u64,
        encode_wait_entries(s)[4 * q + 3] == s[q].1,
    decreases s.len(),
{
    lemma_wait_entries_len(s);
    lemma_wait_entries_len(s.drop_last());
    assert(encode_agent(s.last().0.agent).len() == 2);
    if q < s.len() - 1 {
        lemma_wait_entries_index(s.drop_last(), q);
        assert(s.drop_last()[q] == s[q]);
    }
}

/// The words of one pending record inside the block.
proof fn lemma_req_entries_index(s: Seq<Request>, q: int)
    requires
        0 <= q < s.len(),
    ensures
        encode_req_entries(s).len() == 3 * s.len(),
        encode_req_entries(s)[3 * q] == encode_agent(s[q].agent)[0],
        encode_req_entries(s)[3 * q + 1] == encode_agent(s[q].agent)[1],
        encode_req_entries(s)[3 * q + 2] == (s[q].turn).0 as u64,
    decreases s.len(),
{
    lemma_req_entries_len(s);
    lemma_req_entries_len(s.drop_last());
    assert(encode_agent(s.last().agent).len() == 2);
    if q < s.len() - 1 {
        lemma_req_entries_index(s.drop_last(), q);
        assert(s.drop_last()[q] == s[q]);
    }
}

/// Equal agent words name equal agents.
proof fn lemma_agent_words_injective(a1: AgentID, a2: AgentID)
    requires
        encode_agent(a1) == encode_agent(a2),
    ensures
        a1 == a2,
{
    assert(encode_agent(a1)[0] == encode_agent(a2)[0]);
    assert(encode_agent(a1)[1] == encode_agent(a2)[1]);
}

/// Equal accepted-entry words name equal entry sequences.
proof fn lemma_acc_entries_injective(s1: Seq<(AgentID, TurnID)>, s2: Seq<(AgentID, TurnID)>)
    requires
        encode_acc_entries(s1) == encode_acc_entries(s2),
    ensures
        s1 == s2,
    decreases s1.len(),
{
    lemma_acc_entries_len(s1);
    lemma_acc_entries_len(s2);
    if s1.len() == 0 {
        assert(s1 =~= s2);
    } else {
        let e = encode_acc_entries(s1);
        let n = s1.len() as int;
        lemma_acc_entries_len(s1.drop_last());
        lemma_acc_entries_len(s2.drop_last());
        assert(e[3 * n - 3] == encode_agent(s1.last().0)[0]);
        assert(e[3 * n - 2] == encode_agent(s1.last().0)[1]);
        assert(e[3 * n - 1] == (s1.last().1).0 as u64);
        assert(e[3 * n - 3] == encode_agent(s2.last().0)[0]);
        assert(e[3 * n - 2] == encode_agent(s2.last().0)[1]);
        assert(e[3 * n - 1] == (s2.last().1).0 as u64);
        assert(encode_agent(s1.last().0) =~= encode_agent(s2.last().0));
        lemma_agent_words_injective(s1.last().0, s2.last().0);
        assert(s1.last() == s2.last());
        assert(encode_acc_entries(s1.drop_last()) =~= encode_acc_entries(s2.drop_last())) by {
            assert forall|j: int|
                0 <= j < 3 * (n - 1) implies encode_acc_entries(s1.drop_last())[j]
                == encode_acc_entries(s2.drop_last())[j] by {
                assert(encode_acc_entries(s1.drop_last())[j] == e[j]);
                assert(encode_acc_entries(s2.drop_last())[j] == e[j]);
            }
        }
        lemma_acc_entries_injective(s1.drop_last(), s2.drop_last());
        assert forall|i: int| 0 <= i < s1.len() implies s1[i] == s2[i] by {
            if i < s1.len() - 1 {
                assert(s1[i] == s1.drop_last()[i]);
                assert(s2[i] == s2.drop_last()[i]);
            } else {
                assert(s1[i] == s1.last() && s2[i] == s2.last());
            }
        }
        assert(s1 =~= s2);
    }
}

/// Equal waiting-entry words name equal entry sequences.
proof fn lemma_wait_entries_injective(s1: Seq<(Request, u64)>, s2: Seq<(Request, u64)>)
    requires
        encode_wait_entries(s1) == encode_wait_entries(s2),
    ensures
        s1 == s2,
    decreases s1.len(),
{
    lemma_wait_entries_len(s1);
    lemma_wait_entries_len(s2);
    if s1.len() == 0 {
        assert(s1 =~= s2);
    } else {
        let e = encode_wait_entries(s1);
        let n = s1.len() as int;
        lemma_wait_entries_len(s1.drop_last());
        lemma_wait_entries_len(s2.drop_last());
        assert(e[4 * n - 4] == encode_agent(s1.last().0.agent)[0]);
        assert(e[4 * n - 3] == encode_agent(s1.last().0.agent)[1]);
        assert(e[4 * n - 2] == (s1.last().0.turn).0 as u64);
        assert(e[4 * n - 1] == s1.last().1);
        assert(e[4 * n - 4] == encode_agent(s2.last().0.agent)[0]);
        assert(e[4 * n - 3] == encode_agent(s2.last().0.agent)[1]);
        assert(e[4 * n - 2] == (s2.last().0.turn).0 as u64);
        assert(e[4 * n - 1] == s2.last().1);
        assert(encode_agent(s1.last().0.agent) =~= encode_agent(s2.last().0.agent));
        lemma_agent_words_injective(s1.last().0.agent, s2.last().0.agent);
        assert(s1.last() == s2.last());
        assert(encode_wait_entries(s1.drop_last()) =~= encode_wait_entries(s2.drop_last())) by {
            assert forall|j: int|
                0 <= j < 4 * (n - 1) implies encode_wait_entries(s1.drop_last())[j]
                == encode_wait_entries(s2.drop_last())[j] by {
                assert(encode_wait_entries(s1.drop_last())[j] == e[j]);
                assert(encode_wait_entries(s2.drop_last())[j] == e[j]);
            }
        }
        lemma_wait_entries_injective(s1.drop_last(), s2.drop_last());
        assert forall|i: int| 0 <= i < s1.len() implies s1[i] == s2[i] by {
            if i < s1.len() - 1 {
                assert(s1[i] == s1.drop_last()[i]);
                assert(s2[i] == s2.drop_last()[i]);
            } else {
                assert(s1[i] == s1.last() && s2[i] == s2.last());
            }
        }
        assert(s1 =~= s2);
    }
}

/// Equal pending-request words name equal request sequences.
proof fn lemma_req_entries_injective(s1: Seq<Request>, s2: Seq<Request>)
    requires
        encode_req_entries(s1) == encode_req_entries(s2),
    ensures
        s1 == s2,
    decreases s1.len(),
{
    lemma_req_entries_len(s1);
    lemma_req_entries_len(s2);
    if s1.len() == 0 {
        assert(s1 =~= s2);
    } else {
        let e = encode_req_entries(s1);
        let n = s1.len() as int;
        lemma_req_entries_len(s1.drop_last());
        lemma_req_entries_len(s2.drop_last());
        assert(e[3 * n - 3] == encode_agent(s1.last().agent)[0]);
        assert(e[3 * n - 2] == encode_agent(s1.last().agent)[1]);
        assert(e[3 * n - 1] == (s1.last().turn).0 as u64);
        assert(e[3 * n - 3] == encode_agent(s2.last().agent)[0]);
        assert(e[3 * n - 2] == encode_agent(s2.last().agent)[1]);
        assert(e[3 * n - 1] == (s2.last().turn).0 as u64);
        assert(encode_agent(s1.last().agent) =~= encode_agent(s2.last().agent));
        lemma_agent_words_injective(s1.last().agent, s2.last().agent);
        assert(s1.last() == s2.last());
        assert(encode_req_entries(s1.drop_last()) =~= encode_req_entries(s2.drop_last())) by {
            assert forall|j: int|
                0 <= j < 3 * (n - 1) implies encode_req_entries(s1.drop_last())[j]
                == encode_req_entries(s2.drop_last())[j] by {
                assert(encode_req_entries(s1.drop_last())[j] == e[j]);
                assert(encode_req_entries(s2.drop_last())[j] == e[j]);
            }
        }
        lemma_req_entries_injective(s1.drop_last(), s2.drop_last());
        assert forall|i: int| 0 <= i < s1.len() implies s1[i] == s2[i] by {
            if i < s1.len() - 1 {
                assert(s1[i] == s1.drop_last()[i]);
                assert(s2[i] == s2.drop_last()[i]);
            } else {
                assert(s1[i] == s1.last() && s2[i] == s2.last());
            }
        }
        assert(s1 =~= s2);
    }
}

/// The containers a policy can hold are no longer than a vector can be.
proof fn lemma_policy_bounds(p: IntersectionPolicy)
    ensures
        policy_wait_seq(p).len() <= usize::MAX,
        policy_acc_seq(p).len() <= usize::MAX,
        policy_req_seq(p).len() <= usize::MAX,
{
    match p {
        IntersectionPolicy::StopSignPolicy(s) => {
            assert(s.started_waiting_at.entries.len() == s.started_waiting_at.seq().len());
            assert(s.accepted.entries.len() == s.accepted.seq().len());
        },
        IntersectionPolicy::TrafficSignalPolicy(t) => {
            assert(t.accepted.entries.len() == t.accepted.seq().len());
            assert(t.requests.entries.len() == t.requests.seq().len());
        },
    }
}

/// Equal policy blocks name the same regime, the same intersection and the
/// same container contents in the same order.
proof fn lemma_policy_injective(p1: IntersectionPolicy, p2: IntersectionPolicy)
    requires
        encode_policy(p1) == encode_policy(p2),
    ensures
        p1.is_signal() == p2.is_signal(),
        p1.id_spec() == p2.id_spec(),
        policy_wait_seq(p1) == policy_wait_seq(p2),
        policy_acc_seq(p1) == policy_acc_seq(p2),
        policy_req_seq(p1) == policy_req_seq(p2),
{
    let e = encode_policy(p1);
    lemma_policy_bounds(p1);
    lemma_policy_bounds(p2);
    lemma_wait_entries_len(policy_wait_seq(p1));
    lemma_wait_entries_len(policy_wait_seq(p2));
    lemma_acc_entries_len(policy_acc_seq(p1));
    lemma_acc_entries_len(policy_acc_seq(p2));
    lemma_req_entries_len(policy_req_seq(p1));
    lemma_req_entries_len(policy_req_seq(p2));
    assert(e[0] == encode_policy(p2)[0]);
    assert(p1.is_signal() == p2.is_signal());
    assert(e[1] == encode_policy(p2)[1]);
    assert(p1.id_spec() == p2.id_spec());
    assert(e[2] == encode_policy(p2)[2]);
    match (p1, p2) {
        (IntersectionPolicy::StopSignPolicy(s1), IntersectionPolicy::StopSignPolicy(s2)) => {
            let w1 = s1.started_waiting_at.seq();
            let w2 = s2.started_waiting_at.seq();
            assert(w1.len() == w2.len());
            let wl = 4 * w1.len() as int;
            assert(encode_wait_entries(w1) =~= encode_wait_entries(w2)) by {
                assert forall|j: int| 0 <= j < wl implies encode_wait_entries(w1)[j]
                    == encode_wait_entries(w2)[j] by {
                    assert(encode_wait_entries(w1)[j] == e[3 + j]);
                    assert(encode_wait_entries(w2)[j] == e[3 + j]);
                }
            }
            lemma_wait_entries_injective(w1, w2);
            let c1 = s1.accepted.seq();
            let c2 = s2.accepted.seq();
            assert(e[3 + wl] == c1.len() as u64);
            assert(e[3 + wl] == c2.len() as u64);
            assert(c1.len() == c2.len());
            assert(encode_acc_entries(c1) =~= encode_acc_entries(c2)) by {
                assert forall|j: int| 0 <= j < 3 * c1.len() implies encode_acc_entries(c1)[j]
                    == encode_acc_entries(c2)[j] by {
                    assert(encode_acc_entries(c1)[j] == e[4 + wl + j]);
                    assert(encode_acc_entries(c2)[j] == e[4 + wl + j]);
                }
            }
            lemma_acc_entries_injective(c1, c2);
        },
        (
            IntersectionPolicy::TrafficSignalPolicy(t1),
            IntersectionPolicy::TrafficSignalPolicy(t2),
        ) => {
            let c1 = t1.accepted.seq();
            let c2 = t2.accepted.seq();
            assert(c1.len() == c2.len());
            let cl = 3 * c1.len() as int;
            assert(encode_acc_entries(c1) =~= encode_acc_entries(c2)) by {
                assert forall|j: int| 0 <= j < cl implies encode_acc_entries(c1)[j]
                    == encode_acc_entries(c2)[j] by {
                    assert(encode_acc_entries(c1)[j] == e[3 + j]);
                    assert(encode_acc_entries(c2)[j] == e[3 + j]);
                }
            }
            lemma_acc_entries_injective(c1, c2);
            let q1 = t1.requests.seq();
            let q2 = t2.requests.seq();
            assert(e[3 + cl] == q1.len() as u64);
            assert(e[3 + cl] == q2.len() as u64);
            assert(q1.len() == q2.len());
            assert(encode_req_entries(q1) =~= encode_req_entries(q2)) by {
                assert forall|j: int| 0 <= j < 3 * q1.len() implies encode_req_entries(q1)[j]
                    == encode_req_entries(q2)[j] by {
                    assert(encode_req_entries(q1)[j] == e[4 + cl + j]);
                    assert(encode_req_entries(q2)[j] == e[4 + cl + j]);
                }
            }
            lemma_req_entries_injective(q1, q2);
        },
        _ => {
            assert(false);
        },
    }
}

/// Equal policy streams of equal count name, position by position, the same
/// regime, intersection and contents. The length hypotheses hold of any
/// state whose snapshot a vector can hold, which the encoder shows of every
/// state a run reaches.
proof fn lemma_policies_injective(s1: Seq<IntersectionPolicy>, s2: Seq<IntersectionPolicy>)
    requires
        encode_policies(s1) == encode_policies(s2),
        s1.len() == s2.len(),
        forall|i: int|
            0 <= i < s1.len() ==> (#[trigger] encode_policy(s1[i])).len() <= u64::MAX,
        forall|i: int|
            0 <= i < s2.len() ==> (#[trigger] encode_policy(s2[i])).len() <= u64::MAX,
    ensures
        forall|i: int|
            0 <= i < s1.len() ==> {
                let p1 = #[trigger] s1[i];
                let p2 = s2[i];
                &&& p1.is_signal() == p2.is_signal()
                &&& p1.id_spec() == p2.id_spec()
                &&& policy_wait_seq(p1) == policy_wait_seq(p2)
                &&& policy_acc_seq(p1) == policy_acc_seq(p2)
                &&& policy_req_seq(p1) == policy_req_seq(p2)
            },
    decreases s1.len(),
{
    if s1.len() > 0 {
        let e = encode_policies(s1);
        let b1 = encode_policy(s1[0]);
        let b2 = encode_policy(s2[0]);
        assert(e[0] == b1.len() as u64);
        assert(e[0] == b2.len() as u64);
        assert(b1.len() == b2.len());
        let bl = b1.len() as int;
        assert(b1 =~= b2) by {
            assert forall|j: int| 0 <= j < bl implies b1[j] == b2[j] by {
                assert(b1[j] == e[1 + j]);
                assert(b2[j] == e[1 + j]);
            }
        }
        lemma_policy_injective(s1[0], s2[0]);
        let r1 = encode_policies(s1.drop_first());
        let r2 = encode_policies(s2.drop_first());
        assert(r1.len() == e.len() - 1 - bl);
        assert(r2.len() == e.len() - 1 - bl);
        assert(r1 =~= r2) by {
            assert forall|j: int| 0 <= j < r1.len() implies r1[j] == r2[j] by {
                assert(r1[j] == e[1 + bl + j]);
                assert(r2[j] == e[1 + bl + j]);
            }
        }
        assert forall|i: int|
            0 <= i < s1.drop_first().len() implies (#[trigger] encode_policy(
            s1.drop_first()[i],
        )).len() <= u64::MAX by {
            assert(s1.drop_first()[i] == s1[i + 1]);
        }
        assert forall|i: int|
            0 <= i < s2.drop_first().len() implies (#[trigger] encode_policy(
            s2.drop_first()[i],
        )).len() <= u64::MAX by {
            assert(s2.drop_first()[i] == s2[i + 1]);
        }
        lemma_policies_injective(s1.drop_first(), s2.drop_first());
        assert forall|i: int| 0 <= i < s1.len() implies {
            let p1 = #[trigger] s1[i];
            let p2 = s2[i];
            &&& p1.is_signal() == p2.is_signal()
            &&& p1.id_spec() == p2.id_spec()
            &&& policy_wait_seq(p1) == policy_wait_seq(p2)
            &&& policy_acc_seq(p1) == policy_acc_seq(p2)
            &&& policy_req_seq(p1) == policy_req_seq(p2)
        } by {
            if i > 0 {
                assert(s1[i] == s1.drop_first()[i - 1]);
                assert(s2[i] == s2.drop_first()[i - 1]);
            }
        }
    }
}

/// Round-trip content: two registries with the same snapshot hold, at every
/// intersection, the same regime and the same accepted, waiting and pending
/// entries in the same canonical order. With the contracts of `encode` and
/// `decode`, a snapshot restores exactly the contents it was taken from.
pub proof fn lemma_snapshot_injective(st1: IntersectionSimState, st2: IntersectionSimState)
    requires
        encode_state(st1) == encode_state(st2),
        forall|i: int|
            0 <= i < st1.policies().len() ==> (#[trigger] encode_policy(
                st1.policies()[i],
            )).len() <= u64::MAX,
        forall|i: int|
            0 <= i < st2.policies().len() ==> (#[trigger] encode_policy(
                st2.policies()[i],
            )).len() <= u64::MAX,
    ensures
        st1.policies().len() == st2.policies().len(),
        forall|i: int|
            0 <= i < st1.policies().len() ==> {
                let p1 = #[trigger] st1.policies()[i];
                let p2 = st2.policies()[i];
                &&& p1.is_signal() == p2.is_signal()
                &&& p1.id_spec() == p2.id_spec()
                &&& policy_wait_seq(p1) == policy_wait_seq(p2)
                &&& policy_acc_seq(p1) == policy_acc_seq(p2)
                &&& policy_req_seq(p1) == policy_req_seq(p2)
            },
{
    let e = encode_state(st1);
    assert(st1.intersections.len() == st1.policies().len());
    assert(st2.intersections.len() == st2.policies().len());
    assert(e[0] == st1.policies().len() as u64);
    assert(e[0] == st2.policies().len() as u64);
    assert(st1.policies().len() == st2.policies().len());
    let e1 = encode_policies(st1.policies());
    let e2 = encode_policies(st2.policies());
    assert(e1.len() == e.len() - 1);
    assert(e2.len() == e.len() - 1);
    assert(e1 =~= e2) by {
        assert forall|j: int| 0 <= j < e1.len() implies e1[j] == e2[j] by {
            assert(e1[j] == e[1 + j]);
            assert(e2[j] == e[1 + j]);
        }
    }
    lemma_policies_injective(st1.policies(), st2.policies());
}

/// Value-determined serialization, one policy at a time: two well-formed
/// policies of the same regime and intersection whose logical contents are
/// equal encode word for word identically, however each was built up.
pub proof fn lemma_policy_encoding_canonical(p1: IntersectionPolicy, p2: IntersectionPolicy)
    requires
        p1.wf(),
        p2.wf(),
        p1.is_signal() == p2.is_signal(),
        p1.id_spec() == p2.id_spec(),
        p1.acc() == p2.acc(),
        p1.stop_waiting() == p2.stop_waiting(),
        p1.signal_pending() == p2.signal_pending(),
    ensures
        encode_policy(p1) == encode_policy(p2),
{
    match (p1, p2) {
        (IntersectionPolicy::StopSignPolicy(s1), IntersectionPolicy::StopSignPolicy(s2)) => {
            lemma_wait_entries_canonical(
                s1.started_waiting_at.seq(),
                s2.started_waiting_at.seq(),
            );
            lemma_agent_entries_canonical(s1.accepted.seq(), s2.accepted.seq());
        },
        (
            IntersectionPolicy::TrafficSignalPolicy(t1),
            IntersectionPolicy::TrafficSignalPolicy(t2),
        ) => {
            lemma_agent_entries_canonical(t1.accepted.seq(), t2.accepted.seq());
            lemma_requests_canonical(t1.requests.seq(), t2.requests.seq());
        },
        _ => {
            assert(false);
        },
    }
}

/// Policy streams are congruent under pointwise equal blocks.
proof fn lemma_encode_policies_congruent(s1: Seq<IntersectionPolicy>, s2: Seq<IntersectionPolicy>)
    requires
        s1.len() == s2.len(),
        forall|i: int|
            0 <= i < s1.len() ==> encode_policy(#[trigger] s1[i]) == encode_policy(s2[i]),
    ensures
        encode_policies(s1) == encode_policies(s2),
    decreases s1.len(),
{
    if s1.len() > 0 {
        assert forall|i: int|
            0 <= i < s1.drop_first().len() implies encode_policy(
            #[trigger] s1.drop_first()[i],
        ) == encode_policy(s2.drop_first()[i]) by {
            assert(s1.drop_first()[i] == s1[i + 1]);
            assert(s2.drop_first()[i] == s2[i + 1]);
        }
        lemma_encode_policies_congruent(s1.drop_first(), s2.drop_first());
        assert(encode_policy(s1[0]) == encode_policy(s2[0]));
        assert(encode_policies(s1) =~= encode_policies(s2));
    }
}

/// Value-determined serialization across the registry: two registries whose
/// intersections hold, position by position, the same regime and the same
/// logical contents take bit-for-bit the same snapshot, in whatever order
/// their contents were submitted and promoted.
pub proof fn lemma_state_encoding_canonical(st1: IntersectionSimState, st2: IntersectionSimState)
    requires
        st1.policies().len() == st2.policies().len(),
        forall|i: int|
            0 <= i < st1.policies().len() ==> {
                let p1 = #[trigger] st1.policies()[i];
                let p2 = st2.policies()[i];
                &&& p1.wf()
                &&& p2.wf()
                &&& p1.is_signal() == p2.is_signal()
                &&& p1.id_spec() == p2.id_spec()
                &&& p1.acc() == p2.acc()
                &&& p1.stop_waiting() == p2.stop_waiting()
                &&& p1.signal_pending() == p2.signal_pending()
            },
    ensures
        encode_state(st1) == encode_state(st2),
{
    assert forall|i: int|
        0 <= i < st1.policies().len() implies encode_policy(#[trigger] st1.policies()[i])
        == encode_policy(st2.policies()[i]) by {
        lemma_policy_encoding_canonical(st1.policies()[i], st2.policies()[i]);
    }
    lemma_encode_policies_congruent(st1.policies(), st2.policies());
    assert(encode_state(st1) =~= encode_state(st2));
}

/// Reads one agent: a tag word, then a number word.
fn parse_agent(data: &Vec<u64>, pos: usize) -> (r: Option<(AgentID, usize)>)
    ensures
        r matches Some(v) ==> pos + 2 <= data@.len() && v.1 == pos + 2 && data@.subrange(
            pos as int,
            pos + 2,
        ) == encode_agent(v.0),
        r is None ==> forall|a: AgentID|
            !(pos + 2 <= data@.len() && data@.subrange(pos as int, pos + 2) == #[trigger] encode_agent(a)),
{
    if pos >= data.len() || data.len() - pos < 2 {
        return None;
    }
    let tag = data[pos];
    let idw = data[pos + 1];
    proof {
        assert forall|a: AgentID|
            data@.subrange(pos as int, pos + 2) == #[trigger] encode_agent(a) implies tag
            == encode_agent(a)[0] && idw == encode_agent(a)[1] by {
            assert(data@.subrange(pos as int, pos + 2)[0] == tag);
            assert(data@.subrange(pos as int, pos + 2)[1] == idw);
        }
    }
    if idw > usize::MAX as u64 {
        return None;
    }
    if tag == 0 {
        let a = AgentID::Car(CarID(idw as usize));
        proof {
            assert(data@.subrange(pos as int, pos + 2) =~= encode_agent(a));
        }
        Some((a, pos + 2))
    } else if tag == 1 {
        let a = AgentID::Pedestrian(PedestrianID(idw as usize));
        proof {
            assert(data@.subrange(pos as int, pos + 2) =~= encode_agent(a));
        }
        Some((a, pos + 2))
    } else {
        None
    }
}

/// A sorted accepted block of `count` entries stands at `pos`.
pub open spec fn acc_block_at(
    data: Seq<u64>,
    pos: int,
    count: int,
    s: Seq<(AgentID, TurnID)>,
) -> bool {
    &&& agent_entries_sorted(s)
    &&& s.len() == count
    &&& pos + 3 * count <= data.len()
    &&& data.subrange(pos, pos + 3 * count) == encode_acc_entries(s)
}

/// Reads `count` accepted entries, checking their canonical order. It
/// returns the one sorted block standing at `pos`, and fails exactly when
/// none does.
#[verifier::loop_isolation(false)]
fn parse_acc_entries(data: &Vec<u64>, pos: usize, count: u64) -> (r: Option<(AgentMap, usize)>)
    requires
        pos <= data@.len(),
    ensures
        r matches Some(v) ==> v.0.wf() && v.0.seq().len() == count && v.1 <= data@.len()
            && v.1 as int == pos + 3 * (count as int) && acc_block_at(
            data@,
            pos as int,
            count as int,
            v.0.seq(),
        ),
        r is None ==> forall|s: Seq<(AgentID, TurnID)>|
            !#[trigger] acc_block_at(data@, pos as int, count as int, s),
{
    let mut out: Vec<(AgentID, TurnID)> = Vec::new();
    let mut cur: usize = pos;
    let mut c: u64 = 0;
    while c < count
        invariant
            c <= count,
            cur as int == pos + 3 * (c as int),
            cur <= data@.len(),
            out@.len() == c,
            agent_entries_sorted(out@),
            data@.subrange(pos as int, cur as int) == encode_acc_entries(out@),
            forall|s: Seq<(AgentID, TurnID)>|
                #[trigger] acc_block_at(data@, pos as int, count as int, s) ==> s.subrange(
                    0,
                    c as int,
                ) == out@,
        decreases count - c,
    {
        proof {
            assert forall|s: Seq<(AgentID, TurnID)>|
                #[trigger] acc_block_at(data@, pos as int, count as int, s) implies {
                &&& cur + 3 <= data@.len()
                &&& data@.subrange(cur as int, cur as int + 2) == encode_agent(s[c as int].0)
                &&& data@[cur as int + 2] == (s[c as int].1).0 as u64
            } by {
                lemma_acc_entries_index(s, c as int);
                let block = data@.subrange(pos as int, pos + 3 * (count as int));
                assert(data@[cur as int] == block[3 * (c as int)]);
                assert(data@[cur as int + 1] == block[3 * (c as int) + 1]);
                assert(data@[cur as int + 2] == block[3 * (c as int) + 2]);
                assert(data@.subrange(cur as int, cur as int + 2) =~= encode_agent(
                    s[c as int].0,
                ));
            }
        }
        match parse_agent(data, cur) {
            None => {
                proof {
                    assert forall|s: Seq<(AgentID, TurnID)>|
                        !#[trigger] acc_block_at(data@, pos as int, count as int, s) by {
                        if acc_block_at(data@, pos as int, count as int, s) {
                            assert(data@.subrange(cur as int, cur as int + 2) == encode_agent(
                                s[c as int].0,
                            ));
                        }
                    }
                }
                return None;
            },
            Some((a, p2)) => {
                if p2 >= data.len() {
                    proof {
                        assert forall|s: Seq<(AgentID, TurnID)>|
                            !#[trigger] acc_block_at(data@, pos as int, count as int, s) by {}
                    }
                    return None;
                }
                let tw = data[p2];
                if tw > usize::MAX as u64 {
                    proof {
                        assert forall|s: Seq<(AgentID, TurnID)>|
                            !#[trigger] acc_block_at(data@, pos as int, count as int, s) by {
                            if acc_block_at(data@, pos as int, count as int, s) {
                                assert(data@[cur as int + 2] == (s[c as int].1).0 as u64);
                            }
                        }
                    }
                    return None;
                }
                let t = TurnID(tw as usize);
                proof {
                    assert forall|s: Seq<(AgentID, TurnID)>|
                        #[trigger] acc_block_at(data@, pos as int, count as int, s) implies s[c as int]
                        == (a, t) by {
                        lemma_agent_words_injective(a, s[c as int].0);
                        assert((s[c as int].1).0 as u64 == tw);
                    }
                }
                if out.len() > 0 {
                    let last = out[out.len() - 1];
                    if !agent_before(last.0, a) {
                        proof {
                            assert forall|s: Seq<(AgentID, TurnID)>|
                                !#[trigger] acc_block_at(data@, pos as int, count as int, s) by {
                                if acc_block_at(data@, pos as int, count as int, s) {
                                    assert(s.subrange(0, c as int)[c as int - 1] == last);
                                    assert(s[c as int - 1] == last);
                                    assert(agent_lt(s[c as int - 1].0, s[c as int].0));
                                }
                            }
                        }
                        return None;
                    }
                }
                let ghost olds = out@;
                out.push((a, t));
                proof {
                    assert forall|i: int, j: int| 0 <= i < j < out@.len() implies agent_lt(
                        (#[trigger] out@[i]).0,
                        (#[trigger] out@[j]).0,
                    ) by {
                        if j == out@.len() - 1 {
                            if i < olds.len() - 1 {
                                assert(agent_lt(olds[i].0, olds[olds.len() - 1].0));
                            }
                        } else {
                            assert(out@[i] == olds[i] && out@[j] == olds[j]);
                        }
                    }
                    assert(out@.drop_last() =~= olds);
                    assert(data@.subrange(pos as int, cur as int + 3) =~= encode_acc_entries(olds)
                        + encode_agent(a) + seq![tw]);
                    assert(encode_acc_entries(out@) == encode_acc_entries(olds) + encode_agent(a)
                        + seq![(t.0 as u64)]);
                    assert(data@.subrange(pos as int, cur as int + 3) == encode_acc_entries(out@));
                    assert forall|s: Seq<(AgentID, TurnID)>|
                        #[trigger] acc_block_at(data@, pos as int, count as int, s) implies s.subrange(
                        0,
                        c as int + 1,
                    ) == out@ by {
                        assert(s.subrange(0, c as int + 1) =~= s.subrange(0, c as int) + seq![
                            s[c as int],
                        ]);
                        assert(s.subrange(0, c as int + 1) =~= out@);
                    }
                }
                cur = p2 + 1;
            },
        }
        c = c + 1;
    }
    proof {
        assert(acc_block_at(data@, pos as int, count as int, out@));
    }
    Some((AgentMap { entries: out }, cur))
}

/// A sorted waiting block of `count` entries stands at `pos`.
pub open spec fn wait_block_at(
    data: Seq<u64>,
    pos: int,
    count: int,
    s: Seq<(Request, u64)>,
) -> bool {
    &&& wait_entries_sorted(s)
    &&& s.len() == count
    &&& pos + 4 * count <= data.len()
    &&& data.subrange(pos, pos + 4 * count) == encode_wait_entries(s)
}

/// Reads `count` waiting entries, checking their canonical order. It returns
/// the one sorted block standing at `pos`, and fails exactly when none does.
#[verifier::loop_isolation(false)]
fn parse_wait_entries(data: &Vec<u64>, pos: usize, count: u64) -> (r: Option<(WaitQueue, usize)>)
    requires
        pos <= data@.len(),
    ensures
        r matches Some(v) ==> v.0.wf() && v.0.seq().len() == count && v.1 <= data@.len()
            && v.1 as int == pos + 4 * (count as int) && wait_block_at(
            data@,
            pos as int,
            count as int,
            v.0.seq(),
        ),
        r is None ==> forall|s: Seq<(Request, u64)>|
            !#[trigger] wait_block_at(data@, pos as int, count as int, s),
{
    let mut out: Vec<(Request, u64)> = Vec::new();
    let mut cur: usize = pos;
    let mut c: u64 = 0;
    while c < count
        invariant
            c <= count,
            cur as int == pos + 4 * (c as int),
            cur <= data@.len(),
            out@.len() == c,
            wait_entries_sorted(out@),
            data@.subrange(pos as int, cur as int) == encode_wait_entries(out@),
            forall|s: Seq<(Request, u64)>|
                #[trigger] wait_block_at(data@, pos as int, count as int, s) ==> s.subrange(
                    0,
                    c as int,
                ) == out@,
        decreases count - c,
    {
        proof {
            assert forall|s: Seq<(Request, u64)>|
                #[trigger] wait_block_at(data@, pos as int, count as int, s) implies {
                &&& cur + 4 <= data@.len()
                &&& data@.subrange(cur as int, cur as int + 2) == encode_agent(s[c as int].0.agent)
                &&& data@[cur as int + 2] == (s[c as int].0.turn).0 as u64
                &&& data@[cur as int + 3] == s[c as int].1
            } by {
                lemma_wait_entries_index(s, c as int);
                let block = data@.subrange(pos as int, pos + 4 * (count as int));
                assert(data@[cur as int] == block[4 * (c as int)]);
                assert(data@[cur as int + 1] == block[4 * (c as int) + 1]);
                assert(data@[cur as int + 2] == block[4 * (c as int) + 2]);
                assert(data@[cur as int + 3] == block[4 * (c as int) + 3]);
                assert(data@.subrange(cur as int, cur as int + 2) =~= encode_agent(
                    s[c as int].0.agent,
                ));
            }
        }
        match parse_agent(data, cur) {
            None => {
                proof {
                    assert forall|s: Seq<(Request, u64)>|
                        !#[trigger] wait_block_at(data@, pos as int, count as int, s) by {
                        if wait_block_at(data@, pos as int, count as int, s) {
                            assert(data@.subrange(cur as int, cur as int + 2) == encode_agent(
                                s[c as int].0.agent,
                            ));
                        }
                    }
                }
                return None;
            },
            Some((a, p2)) => {
                if p2 >= data.len() || data.len() - p2 < 2 {
                    proof {
                        assert forall|s: Seq<(Request, u64)>|
                            !#[trigger] wait_block_at(data@, pos as int, count as int, s) by {}
                    }
                    return None;
                }
                let tw = data[p2];
                if tw > usize::MAX as u64 {
                    proof {
                        assert forall|s: Seq<(Request, u64)>|
                            !#[trigger] wait_block_at(data@, pos as int, count as int, s) by {
                            if wait_block_at(data@, pos as int, count as int, s) {
                                assert(data@[cur as int + 2] == (s[c as int].0.turn).0 as u64);
                            }
                        }
                    }
                    return None;
                }
                let req = Request { agent: a, turn: TurnID(tw as usize) };
                let tick = data[p2 + 1];
                proof {
                    assert forall|s: Seq<(Request, u64)>|
                        #[trigger] wait_block_at(data@, pos as int, count as int, s) implies s[c as int]
                        == (req, tick) by {
                        lemma_agent_words_injective(a, s[c as int].0.agent);
                        assert((s[c as int].0.turn).0 as u64 == tw);
                    }
                }
                if out.len() > 0 {
                    let last = out[out.len() - 1];
                    if !req_before(last.0, req) {
                        proof {
                            assert forall|s: Seq<(Request, u64)>|
                                !#[trigger] wait_block_at(data@, pos as int, count as int, s) by {
                                if wait_block_at(data@, pos as int, count as int, s) {
                                    assert(s.subrange(0, c as int)[c as int - 1] == last);
                                    assert(s[c as int - 1] == last);
                                    assert(req_lt(s[c as int - 1].0, s[c as int].0));
                                }
                            }
                        }
                        return None;
                    }
                }
                let ghost olds = out@;
                out.push((req, tick));
                proof {
                    assert forall|i: int, j: int| 0 <= i < j < out@.len() implies req_lt(
                        (#[trigger] out@[i]).0,
                        (#[trigger] out@[j]).0,
                    ) by {
                        if j == out@.len() - 1 {
                            if i < olds.len() - 1 {
                                assert(req_lt(olds[i].0, olds[olds.len() - 1].0));
                            }
                        } else {
                            assert(out@[i] == olds[i] && out@[j] == olds[j]);
                        }
                    }
                    assert(out@.drop_last() =~= olds);
                    assert(data@.subrange(pos as int, cur as int + 4) =~= encode_wait_entries(olds)
                        + encode_agent(a) + seq![tw, tick]);
                    assert(encode_wait_entries(out@) == encode_wait_entries(olds) + encode_agent(a)
                        + seq![(req.turn.0 as u64), tick]);
                    assert(data@.subrange(pos as int, cur as int + 4) == encode_wait_entries(out@));
                    assert forall|s: Seq<(Request, u64)>|
                        #[trigger] wait_block_at(data@, pos as int, count as int, s) implies s.subrange(
                        0,
                        c as int + 1,
                    ) == out@ by {
                        assert(s.subrange(0, c as int + 1) =~= s.subrange(0, c as int) + seq![
                            s[c as int],
                        ]);
                        assert(s.subrange(0, c as int + 1) =~= out@);
                    }
                }
                cur = p2 + 2;
            },
        }
        c = c + 1;
    }
    proof {
        assert(wait_block_at(data@, pos as int, count as int, out@));
    }
    Some((WaitQueue { entries: out }, cur))
}

/// A sorted pending block of `count` requests stands at `pos`.
pub open spec fn req_block_at(data: Seq<u64>, pos: int, count: int, s: Seq<Request>) -> bool {
    &&& requests_sorted(s)
    &&& s.len() == count
    &&& pos + 3 * count <= data.len()
    &&& data.subrange(pos, pos + 3 * count) == encode_req_entries(s)
}

/// Reads `count` pending requests, checking their canonical order. It
/// returns the one sorted block standing at `pos`, and fails exactly when
/// none does.
#[verifier::loop_isolation(false)]
fn parse_req_entries(data: &Vec<u64>, pos: usize, count: u64) -> (r: Option<(RequestSet, usize)>)
    requires
        pos <= data@.len(),
    ensures
        r matches Some(v) ==> v.0.wf() && v.0.seq().len() == count && v.1 <= data@.len()
            && v.1 as int == pos + 3 * (count as int) && req_block_at(
            data@,
            pos as int,
            count as int,
            v.0.seq(),
        ),
        r is None ==> forall|s: Seq<Request>|
            !#[trigger] req_block_at(data@, pos as int, count as int, s),
{
    let mut out: Vec<Request> = Vec::new();
    let mut cur: usize = pos;
    let mut c: u64 = 0;
    while c < count
        invariant
            c <= count,
            cur as int == pos + 3 * (c as int),
            cur <= data@.len(),
            out@.len() == c,
            requests_sorted(out@),
            data@.subrange(pos as int, cur as int) == encode_req_entries(out@),
            forall|s: Seq<Request>|
                #[trigger] req_block_at(data@, pos as int, count as int, s) ==> s.subrange(
                    0,
                    c as int,
                ) == out@,
        decreases count - c,
    {
        proof {
            assert forall|s: Seq<Request>|
                #[trigger] req_block_at(data@, pos as int, count as int, s) implies {
                &&& cur + 3 <= data@.len()
                &&& data@.subrange(cur as int, cur as int + 2) == encode_agent(s[c as int].agent)
                &&& data@[cur as int + 2] == (s[c as int].turn).0 as u64
            } by {
                lemma_req_entries_index(s, c as int);
                let block = data@.subrange(pos as int, pos + 3 * (count as int));
                assert(data@[cur as int] == block[3 * (c as int)]);
                assert(data@[cur as int + 1] == block[3 * (c as int) + 1]);
                assert(data@[cur as int + 2] == block[3 * (c as int) + 2]);
                assert(data@.subrange(cur as int, cur as int + 2) =~= encode_agent(
                    s[c as int].agent,
                ));
            }
        }
        match parse_agent(data, cur) {
            None => {
                proof {
                    assert forall|s: Seq<Request>|
                        !#[trigger] req_block_at(data@, pos as int, count as int, s) by {
                        if req_block_at(data@, pos as int, count as int, s) {
                            assert(data@.subrange(cur as int, cur as int + 2) == encode_agent(
                                s[c as int].agent,
                            ));
                        }
                    }
                }
                return None;
            },
            Some((a, p2)) => {
                if p2 >= data.len() {
                    proof {
                        assert forall|s: Seq<Request>|
                            !#[trigger] req_block_at(data@, pos as int, count as int, s) by {}
                    }
                    return None;
                }
                let tw = data[p2];
                if tw > usize::MAX as u64 {
                    proof {
                        assert forall|s: Seq<Request>|
                            !#[trigger] req_block_at(data@, pos as int, count as int, s) by {
                            if req_block_at(data@, pos as int, count as int, s) {
                                assert(data@[cur as int + 2] == (s[c as int].turn).0 as u64);
                            }
                        }
                    }
                    return None;
                }
                let req = Request { agent: a, turn: TurnID(tw as usize) };
                proof {
                    assert forall|s: Seq<Request>|
                        #[trigger] req_block_at(data@, pos as int, count as int, s) implies s[c as int]
                        == req by {
                        lemma_agent_words_injective(a, s[c as int].agent);
                        assert((s[c as int].turn).0 as u64 == tw);
                    }
                }
                if out.len() > 0 {
                    let last = out[out.len() - 1];
                    if !req_before(last, req) {
                        proof {
                            assert forall|s: Seq<Request>|
                                !#[trigger] req_block_at(data@, pos as int, count as int, s) by {
                                if req_block_at(data@, pos as int, count as int, s) {
                                    assert(s.subrange(0, c as int)[c as int - 1] == last);
                                    assert(s[c as int - 1] == last);
                                    assert(req_lt(s[c as int - 1], s[c as int]));
                                }
                            }
                        }
                        return None;
                    }
                }
                let ghost olds = out@;
                out.push(req);
                proof {
                    assert forall|i: int, j: int| 0 <= i < j < out@.len() implies req_lt(
                        #[trigger] out@[i],
                        #[trigger] out@[j],
                    ) by {
                        if j == out@.len() - 1 {
                            if i < olds.len() - 1 {
                                assert(req_lt(olds[i], olds[olds.len() - 1]));
                            }
                        } else {
                            assert(out@[i] == olds[i] && out@[j] == olds[j]);
                        }
                    }
                    assert(out@.drop_last() =~= olds);
                    assert(data@.subrange(pos as int, cur as int + 3) =~= encode_req_entries(olds)
                        + encode_agent(a) + seq![tw]);
                    assert(encode_req_entries(out@) == encode_req_entries(olds) + encode_agent(a)
                        + seq![(req.turn.0 as u64)]);
                    assert(data@.subrange(pos as int, cur as int + 3) == encode_req_entries(out@));
                    assert forall|s: Seq<Request>|
                        #[trigger] req_block_at(data@, pos as int, count as int, s) implies s.subrange(
                        0,
                        c as int + 1,
                    ) == out@ by {
                        assert(s.subrange(0, c as int + 1) =~= s.subrange(0, c as int) + seq![
                            s[c as int],
                        ]);
                        assert(s.subrange(0, c as int + 1) =~= out@);
                    }
                }
                cur = p2 + 1;
            },
        }
        c = c + 1;
    }
    proof {
        assert(req_block_at(data@, pos as int, count as int, out@));
    }
    Some((RequestSet { entries: out }, cur))
}

/// A well-formed policy block stands at `pos`.
pub open spec fn policy_block_at(data: Seq<u64>, pos: int, p: IntersectionPolicy) -> bool {
    &&& p.wf()
    &&& pos >= 0
    &&& pos + encode_policy(p).len() <= data.len()
    &&& data.subrange(pos, pos + encode_policy(p).len()) == encode_policy(p)
}

/// The fixed words of a policy block standing at `pos`.
proof fn lemma_policy_block_words(data: Seq<u64>, pos: int, p: IntersectionPolicy)
    requires
        policy_block_at(data, pos, p),
    ensures
        encode_policy(p).len() >= 4,
        data[pos] == (if p.is_signal() {
            1u64
        } else {
            0u64
        }),
        data[pos + 1] == p.id_spec() as u64,
        data[pos + 2] == (if p.is_signal() {
            policy_acc_seq(p).len() as u64
        } else {
            policy_wait_seq(p).len() as u64
        }),
{
    lemma_wait_entries_len(policy_wait_seq(p));
    lemma_acc_entries_len(policy_acc_seq(p));
    lemma_req_entries_len(policy_req_seq(p));
    assert(data[pos] == encode_policy(p)[0]) by {
        assert(data.subrange(pos, pos + encode_policy(p).len())[0] == data[pos]);
    }
    assert(data[pos + 1] == encode_policy(p)[1]) by {
        assert(data.subrange(pos, pos + encode_policy(p).len())[1] == data[pos + 1]);
    }
    assert(data[pos + 2] == encode_policy(p)[2]) by {
        assert(data.subrange(pos, pos + encode_policy(p).len())[2] == data[pos + 2]);
    }
}

/// The first container of a policy block stands right after its fixed words.
proof fn lemma_policy_block_first(data: Seq<u64>, pos: int, p: IntersectionPolicy)
    requires
        policy_block_at(data, pos, p),
    ensures
        !p.is_signal() ==> wait_block_at(
            data,
            pos + 3,
            policy_wait_seq(p).len() as int,
            policy_wait_seq(p),
        ),
        p.is_signal() ==> acc_block_at(
            data,
            pos + 3,
            policy_acc_seq(p).len() as int,
            policy_acc_seq(p),
        ),
{
    lemma_wait_entries_len(policy_wait_seq(p));
    lemma_acc_entries_len(policy_acc_seq(p));
    lemma_req_entries_len(policy_req_seq(p));
    let e = encode_policy(p);
    if !p.is_signal() {
        let w = policy_wait_seq(p);
        assert forall|j: int|
            0 <= j < 4 * w.len() implies data.subrange(pos + 3, pos + 3 + 4 * (w.len() as int))[j]
            == encode_wait_entries(w)[j] by {
            assert(data[pos + 3 + j] == data.subrange(pos, pos + e.len())[3 + j]);
            assert(e[3 + j] == encode_wait_entries(w)[j]);
        }
        assert(data.subrange(pos + 3, pos + 3 + 4 * (w.len() as int)) =~= encode_wait_entries(w));
    } else {
        let c = policy_acc_seq(p);
        assert forall|j: int|
            0 <= j < 3 * c.len() implies data.subrange(pos + 3, pos + 3 + 3 * (c.len() as int))[j]
            == encode_acc_entries(c)[j] by {
            assert(data[pos + 3 + j] == data.subrange(pos, pos + e.len())[3 + j]);
            assert(e[3 + j] == encode_acc_entries(c)[j]);
        }
        assert(data.subrange(pos + 3, pos + 3 + 3 * (c.len() as int)) =~= encode_acc_entries(c));
    }
}

/// The count word and second container of a policy block, past the first
/// container.
proof fn lemma_policy_block_second(data: Seq<u64>, pos: int, p: IntersectionPolicy)
    requires
        policy_block_at(data, pos, p),
    ensures
        !p.is_signal() ==> {
            let mid = pos + 3 + 4 * (policy_wait_seq(p).len() as int);
            &&& mid < data.len()
            &&& data[mid] == policy_acc_seq(p).len() as u64
            &&& acc_block_at(data, mid + 1, policy_acc_seq(p).len() as int, policy_acc_seq(p))
            &&& pos + encode_policy(p).len() == mid + 1 + 3 * (policy_acc_seq(p).len() as int)
        },
        p.is_signal() ==> {
            let mid = pos + 3 + 3 * (policy_acc_seq(p).len() as int);
            &&& mid < data.len()
            &&& data[mid] == policy_req_seq(p).len() as u64
            &&& req_block_at(data, mid + 1, policy_req_seq(p).len() as int, policy_req_seq(p))
            &&& pos + encode_policy(p).len() == mid + 1 + 3 * (policy_req_seq(p).len() as int)
        },
{
    lemma_wait_entries_len(policy_wait_seq(p));
    lemma_acc_entries_len(policy_acc_seq(p));
    lemma_req_entries_len(policy_req_seq(p));
    let e = encode_policy(p);
    if !p.is_signal() {
        let w = policy_wait_seq(p);
        let c = policy_acc_seq(p);
        let mid = pos + 3 + 4 * (w.len() as int);
        assert(data[mid] == data.subrange(pos, pos + e.len())[3 + 4 * (w.len() as int)]);
        assert(e[3 + 4 * (w.len() as int)] == c.len() as u64);
        assert forall|j: int|
            0 <= j < 3 * c.len() implies data.subrange(mid + 1, mid + 1 + 3 * (c.len() as int))[j]
            == encode_acc_entries(c)[j] by {
            assert(data[mid + 1 + j] == data.subrange(pos, pos + e.len())[4 + 4 * (w.len() as int)
                + j]);
            assert(e[4 + 4 * (w.len() as int) + j] == encode_acc_entries(c)[j]);
        }
        assert(data.subrange(mid + 1, mid + 1 + 3 * (c.len() as int)) =~= encode_acc_entries(c));
    } else {
        let c = policy_acc_seq(p);
        let q = policy_req_seq(p);
        let mid = pos + 3 + 3 * (c.len() as int);
        assert(data[mid] == data.subrange(pos, pos + e.len())[3 + 3 * (c.len() as int)]);
        assert(e[3 + 3 * (c.len() as int)] == q.len() as u64);
        assert forall|j: int|
            0 <= j < 3 * q.len() implies data.subrange(mid + 1, mid + 1 + 3 * (q.len() as int))[j]
            == encode_req_entries(q)[j] by {
            assert(data[mid + 1 + j] == data.subrange(pos, pos + e.len())[4 + 3 * (c.len() as int)
                + j]);
            assert(e[4 + 3 * (c.len() as int) + j] == encode_req_entries(q)[j]);
        }
        assert(data.subrange(mid + 1, mid + 1 + 3 * (q.len() as int)) =~= encode_req_entries(q));
    }
}

/// Reads one policy block. It returns a policy whose block stands at `pos`,
/// and fails exactly when none does; any policy whose block stands at `pos`
/// holds the same contents as the one returned.
fn parse_policy(data: &Vec<u64>, pos: usize) -> (r: Option<(IntersectionPolicy, usize)>)
    requires
        pos <= data@.len(),
    ensures
        r matches Some(v) ==> v.0.wf() && v.1 <= data@.len() && v.1 as int == pos
            + encode_policy(v.0).len() && policy_block_at(data@, pos as int, v.0) && (forall|
            p: IntersectionPolicy,
        |
            #[trigger] policy_block_at(data@, pos as int, p) ==> encode_policy(p) == encode_policy(
                v.0,
            )),
        r is None ==> forall|p: IntersectionPolicy| !#[trigger] policy_block_at(
            data@,
            pos as int,
            p,
        ),
{
    if pos >= data.len() || data.len() - pos < 3 {
        proof {
            assert forall|p: IntersectionPolicy|
                !#[trigger] policy_block_at(data@, pos as int, p) by {
                if policy_block_at(data@, pos as int, p) {
                    lemma_policy_block_words(data@, pos as int, p);
                }
            }
        }
        return None;
    }
    let tag = data[pos];
    let idw = data[pos + 1];
    if idw > usize::MAX as u64 || tag > 1 {
        proof {
            assert forall|p: IntersectionPolicy|
                !#[trigger] policy_block_at(data@, pos as int, p) by {
                if policy_block_at(data@, pos as int, p) {
                    lemma_policy_block_words(data@, pos as int, p);
                    lemma_policy_bounds(p);
                    assert(p.id_spec() as u64 <= usize::MAX as u64);
                }
            }
        }
        return None;
    }
    let id = idw as usize;
    let count1 = data[pos + 2];
    proof {
        assert forall|p: IntersectionPolicy|
            #[trigger] policy_block_at(data@, pos as int, p) implies p.id_spec() == id as int && (
        if p.is_signal() {
            tag == 1 && policy_acc_seq(p).len() == count1 as int
        } else {
            tag == 0 && policy_wait_seq(p).len() == count1 as int
        }) by {
            lemma_policy_block_words(data@, pos as int, p);
            lemma_policy_bounds(p);
            lemma_policy_block_first(data@, pos as int, p);
        }
    }
    if tag == 0 {
        match parse_wait_entries(data, pos + 3, count1) {
            None => {
                proof {
                    assert forall|p: IntersectionPolicy|
                        !#[trigger] policy_block_at(data@, pos as int, p) by {
                        if policy_block_at(data@, pos as int, p) {
                            lemma_policy_block_first(data@, pos as int, p);
                        }
                    }
                }
                None
            },
            Some((waiting, p2)) => {
                proof {
                    assert forall|p: IntersectionPolicy|
                        #[trigger] policy_block_at(data@, pos as int, p) implies policy_wait_seq(p)
                        == waiting.seq() && p2 < data@.len() && data@[p2 as int] == policy_acc_seq(
                        p,
                    ).len() as u64 by {
                        lemma_policy_block_first(data@, pos as int, p);
                        lemma_wait_entries_injective(policy_wait_seq(p), waiting.seq());
                        lemma_policy_block_second(data@, pos as int, p);
                        lemma_acc_entries_len(policy_acc_seq(p));
                    }
                }
                if p2 >= data.len() {
                    return None;
                }
                let count2 = data[p2];
                proof {
                    assert forall|p: IntersectionPolicy|
                        #[trigger] policy_block_at(data@, pos as int, p) implies policy_acc_seq(
                        p,
                    ).len() == count2 as int by {
                        lemma_policy_bounds(p);
                    }
                }
                match parse_acc_entries(data, p2 + 1, count2) {
                    None => {
                        proof {
                            assert forall|p: IntersectionPolicy|
                                !#[trigger] policy_block_at(data@, pos as int, p) by {
                                if policy_block_at(data@, pos as int, p) {
                                    lemma_policy_block_second(data@, pos as int, p);
                                }
                            }
                        }
                        None
                    },
                    Some((accepted, p3)) => {
                        let out = IntersectionPolicy::StopSignPolicy(
                            StopSign { id, started_waiting_at: waiting, accepted },
                        );
                        proof {
                            lemma_wait_entries_len(waiting.seq());
                            lemma_acc_entries_len(accepted.seq());
                            assert(encode_policy(out).len() == 4 + 4 * waiting.seq().len() + 3
                                * accepted.seq().len());
                            assert(data@.subrange(
                                pos as int,
                                pos + encode_policy(out).len(),
                            ) =~= encode_policy(out));
                            assert forall|p: IntersectionPolicy|
                                #[trigger] policy_block_at(data@, pos as int, p) implies policy_acc_seq(
                                p,
                            ) == accepted.seq() by {
                                lemma_policy_block_second(data@, pos as int, p);
                                lemma_acc_entries_injective(policy_acc_seq(p), accepted.seq());
                            }
                            assert forall|p: IntersectionPolicy|
                                #[trigger] policy_block_at(data@, pos as int, p) implies encode_policy(
                                p,
                            ) == encode_policy(out) by {
                                match p {
                                    IntersectionPolicy::StopSignPolicy(s) => {
                                        assert(s.id as int == id as int);
                                        assert(s.started_waiting_at.seq() == waiting.seq());
                                        assert(s.accepted.seq() == accepted.seq());
                                    },
                                    IntersectionPolicy::TrafficSignalPolicy(_) => {
                                        assert(false);
                                    },
                                }
                            }
                        }
                        Some((out, p3))
                    },
                }
            },
        }
    } else {
        match parse_acc_entries(data, pos + 3, count1) {
            None => {
                proof {
                    assert forall|p: IntersectionPolicy|
                        !#[trigger] policy_block_at(data@, pos as int, p) by {
                        if policy_block_at(data@, pos as int, p) {
                            lemma_policy_block_first(data@, pos as int, p);
                        }
                    }
                }
                None
            },
            Some((accepted, p2)) => {
                proof {
                    assert forall|p: IntersectionPolicy|
                        #[trigger] policy_block_at(data@, pos as int, p) implies policy_acc_seq(p)
                        == accepted.seq() && p2 < data@.len() && data@[p2 as int] == policy_req_seq(
                        p,
                    ).len() as u64 by {
                        lemma_policy_block_first(data@, pos as int, p);
                        lemma_acc_entries_injective(policy_acc_seq(p), accepted.seq());
                        lemma_policy_block_second(data@, pos as int, p);
                        lemma_req_entries_len(policy_req_seq(p));
                    }
                }
                if p2 >= data.len() {
                    return None;
                }
                let count2 = data[p2];
                proof {
                    assert forall|p: IntersectionPolicy|
                        #[trigger] policy_block_at(data@, pos as int, p) implies policy_req_seq(
                        p,
                    ).len() == count2 as int by {
                        lemma_policy_bounds(p);
                    }
                }
                match parse_req_entries(data, p2 + 1, count2) {
                    None => {
                        proof {
                            assert forall|p: IntersectionPolicy|
                                !#[trigger] policy_block_at(data@, pos as int, p) by {
                                if policy_block_at(data@, pos as int, p) {
                                    lemma_policy_block_second(data@, pos as int, p);
                                }
                            }
                        }
                        None
                    },
                    Some((requests, p3)) => {
                        let out = IntersectionPolicy::TrafficSignalPolicy(
                            TrafficSignal { id, accepted, requests },
                        );
                        proof {
                            lemma_acc_entries_len(accepted.seq());
                            lemma_req_entries_len(requests.seq());
                            assert(encode_policy(out).len() == 4 + 3 * accepted.seq().len() + 3
                                * requests.seq().len());
                            assert(data@.subrange(
                                pos as int,
                                pos + encode_policy(out).len(),
                            ) =~= encode_policy(out));
                            assert forall|p: IntersectionPolicy|
                                #[trigger] policy_block_at(data@, pos as int, p) implies policy_req_seq(
                                p,
                            ) == requests.seq() by {
                                lemma_policy_block_second(data@, pos as int, p);
                                lemma_req_entries_injective(policy_req_seq(p), requests.seq());
                            }
                            assert forall|p: IntersectionPolicy|
                                #[trigger] policy_block_at(data@, pos as int, p) implies encode_policy(
                                p,
                            ) == encode_policy(out) by {
                                match p {
                                    IntersectionPolicy::StopSignPolicy(_) => {
                                        assert(false);
                                    },
                                    IntersectionPolicy::TrafficSignalPolicy(t) => {
                                        assert(t.id as int == id as int);
                                        assert(t.accepted.seq() == accepted.seq());
                                        assert(t.requests.seq() == requests.seq());
                                    },
                                }
                            }
                        }
                        Some((out, p3))
                    },
                }
            },
        }
    }
}

/// The stream is the snapshot of a registry whose containers hold their
/// canonical order.
pub open spec fn snapshot_of(data: Seq<u64>, st: IntersectionSimState) -> bool {
    &&& forall|i: int| 0 <= i < st.policies().len() ==> (#[trigger] st.policies()[i]).wf()
    &&& encode_state(st) == data
}

/// Round-trip: a canonical registry is a snapshot of its own encoding.
/// `decode` therefore cannot fail on `encode`'s output, and by
/// `lemma_snapshot_injective` what it returns holds, intersection by
/// intersection, exactly the contents that were encoded, in the same
/// canonical order.
pub proof fn lemma_round_trip(st: IntersectionSimState)
    requires
        forall|i: int| 0 <= i < st.policies().len() ==> (#[trigger] st.policies()[i]).wf(),
    ensures
        snapshot_of(encode_state(st), st),
{
}

/// A policy stream splits around any of its members.
proof fn lemma_policies_split(s: Seq<IntersectionPolicy>, i: int)
    requires
        0 <= i < s.len(),
    ensures
        encode_policies(s) == encode_policies(s.take(i)) + seq![
            encode_policy(s[i]).len() as u64,
        ] + encode_policy(s[i]) + encode_policies(s.skip(i + 1)),
{
    assert(s.take(i + 1) =~= s.take(i) + seq![s[i]]);
    assert(s =~= s.take(i + 1) + s.skip(i + 1));
    lemma_encode_policies_append(s.take(i), seq![s[i]]);
    lemma_encode_policies_append(s.take(i + 1), s.skip(i + 1));
    assert(seq![s[i]].drop_first() =~= Seq::<IntersectionPolicy>::empty());
    assert(encode_policies(Seq::<IntersectionPolicy>::empty()) =~= Seq::<u64>::empty());
    assert(encode_policies(seq![s[i]]) =~= seq![encode_policy(s[i]).len() as u64] + encode_policy(
        s[i],
    ));
    assert(encode_policies(s) =~= encode_policies(s.take(i)) + seq![
        encode_policy(s[i]).len() as u64,
    ] + encode_policy(s[i]) + encode_policies(s.skip(i + 1)));
}

/// Word-for-word comparison of two streams.
#[verifier::loop_isolation(false)]
fn words_eq(x: &Vec<u64>, y: &Vec<u64>) -> (r: bool)
    ensures
        r == (x@ == y@),
{
    if x.len() != y.len() {
        proof {
            assert(x@ != y@);
        }
        return false;
    }
    let n: usize = x.len();
    let mut k: usize = 0;
    while k < n
        invariant
            k <= n,
            forall|j: int| 0 <= j < k ==> #[trigger] x@[j] == y@[j],
        decreases n - k,
    {
        if x[k] != y[k] {
            return false;
        }
        k = k + 1;
    }
    proof {
        assert(x@ =~= y@);
    }
    true
}

impl IntersectionSimState {
    /// Writes the whole state as a word stream: a deterministic function of
    /// the canonical contents, fit for snapshots and replay.
    #[verifier::loop_isolation(false)]
    pub fn encode(&self) -> (out: Vec<u64>)
        ensures
            out@ == encode_state(*self),
    {
        let mut out: Vec<u64> = Vec::new();
        let n: usize = self.intersections.len();
        out.push(n as u64);
        let mut i: usize = 0;
        while i < n
            invariant
                i <= n,
                out@ == seq![n as u64] + encode_policies(self.policies().take(i as int)),
            decreases n - i,
        {
            let mut block = encode_policy_block(&self.intersections[i]);
            out.push(block.len() as u64);
            out.append(&mut block);
            proof {
                let taken = self.policies().take(i as int + 1);
                assert(taken =~= self.policies().take(i as int) + seq![self.policies()[i as int]]);
                lemma_encode_policies_append(
                    self.policies().take(i as int),
                    seq![self.policies()[i as int]],
                );
                assert(seq![self.policies()[i as int]].drop_first()
                    =~= Seq::<IntersectionPolicy>::empty());
                assert(encode_policies(Seq::<IntersectionPolicy>::empty())
                    =~= Seq::<u64>::empty());
                assert(encode_policies(seq![self.policies()[i as int]]) =~= seq![
                    encode_policy(self.policies()[i as int]).len() as u64,
                ] + encode_policy(self.policies()[i as int]));
                assert(out@ =~= seq![n as u64] + encode_policies(taken));
            }
            i = i + 1;
        }
        proof {
            assert(self.policies().take(n as int) =~= self.policies());
        }
        out
    }

    /// Restores a state from a word stream: the one canonical state whose
    /// snapshot is exactly that stream, and nothing on any other stream.
    #[verifier::loop_isolation(false)]
    pub fn decode(data: &Vec<u64>) -> (r: Option<IntersectionSimState>)
        ensures
            r matches Some(st) ==> snapshot_of(data@, st),
            r is None ==> forall|st: IntersectionSimState| !#[trigger] snapshot_of(data@, st),
    {
        if data.len() == 0 {
            proof {
                assert forall|st: IntersectionSimState| !#[trigger] snapshot_of(data@, st) by {}
            }
            return None;
        }
        let nw = data[0];
        proof {
            assert forall|st: IntersectionSimState|
                #[trigger] snapshot_of(data@, st) implies st.policies().len() as u64 == nw
                && st.policies().len() <= usize::MAX by {
                assert(st.intersections.len() == st.policies().len());
                assert(data@[0] == encode_state(st)[0]);
            }
        }
        if nw > usize::MAX as u64 {
            return None;
        }
        let n = nw as usize;
        let mut pols: Vec<IntersectionPolicy> = Vec::new();
        let mut cur: usize = 1;
        let mut i: usize = 0;
        while i < n
            invariant
                i <= n,
                pols@.len() == i,
                1 <= cur <= data@.len(),
                cur as int == 1 + encode_policies(pols@).len(),
                forall|j: int| 0 <= j < pols@.len() ==> (#[trigger] pols@[j]).wf(),
                forall|st: IntersectionSimState|
                    #[trigger] snapshot_of(data@, st) ==> st.policies().len() == n
                        && encode_policies(st.policies().take(i as int)) == encode_policies(pols@),
            decreases n - i,
        {
            proof {
                assert forall|st: IntersectionSimState|
                    #[trigger] snapshot_of(data@, st) implies {
                    &&& cur + 1 < data@.len()
                    &&& policy_block_at(data@, cur as int + 1, st.policies()[i as int])
                } by {
                    lemma_policies_split(st.policies(), i as int);
                    let front = encode_policies(st.policies().take(i as int));
                    let block = encode_policy(st.policies()[i as int]);
                    lemma_policy_bounds(st.policies()[i as int]);
                    lemma_wait_entries_len(policy_wait_seq(st.policies()[i as int]));
                    lemma_acc_entries_len(policy_acc_seq(st.policies()[i as int]));
                    lemma_req_entries_len(policy_req_seq(st.policies()[i as int]));
                    assert(block.len() >= 4);
                    assert(data@.len() >= 1 + front.len() + 1 + block.len());
                    assert forall|j: int|
                        0 <= j < block.len() implies data@.subrange(
                        cur as int + 1,
                        cur as int + 1 + block.len(),
                    )[j] == block[j] by {
                        assert(data@[cur as int + 1 + j] == encode_state(st)[cur as int + 1 + j]);
                    }
                    assert(data@.subrange(cur as int + 1, cur as int + 1 + block.len())
                        =~= block);
                }
            }
            if cur >= data.len() {
                return None;
            }
            cur = cur + 1;
            match parse_policy(data, cur) {
                None => {
                    proof {
                        assert forall|st: IntersectionSimState|
                            !#[trigger] snapshot_of(data@, st) by {}
                    }
                    return None;
                },
                Some((p, p2)) => {
                    proof {
                        assert forall|st: IntersectionSimState|
                            #[trigger] snapshot_of(data@, st) implies encode_policies(
                            st.policies().take(i as int + 1),
                        ) == encode_policies(pols@.push(p)) by {
                            assert(encode_policy(st.policies()[i as int]) == encode_policy(p));
                            assert(st.policies().take(i as int + 1) =~= st.policies().take(
                                i as int,
                            ) + seq![st.policies()[i as int]]);
                            lemma_encode_policies_append(
                                st.policies().take(i as int),
                                seq![st.policies()[i as int]],
                            );
                            assert(pols@.push(p) =~= pols@ + seq![p]);
                            lemma_encode_policies_append(pols@, seq![p]);
                            assert(seq![st.policies()[i as int]].drop_first()
                                =~= Seq::<IntersectionPolicy>::empty());
                            assert(seq![p].drop_first() =~= Seq::<IntersectionPolicy>::empty());
                            assert(encode_policies(Seq::<IntersectionPolicy>::empty())
                                =~= Seq::<u64>::empty());
                            assert(encode_policies(seq![st.policies()[i as int]]) =~= seq![
                                encode_policy(st.policies()[i as int]).len() as u64,
                            ] + encode_policy(st.policies()[i as int]));
                            assert(encode_policies(seq![p]) =~= seq![
                                encode_policy(p).len() as u64,
                            ] + encode_policy(p));
                            assert(encode_policies(st.policies().take(i as int + 1))
                                =~= encode_policies(pols@.push(p)));
                        }
                        assert(pols@.push(p) =~= pols@ + seq![p]);
                        lemma_encode_policies_append(pols@, seq![p]);
                        assert(seq![p].drop_first() =~= Seq::<IntersectionPolicy>::empty());
                        assert(encode_policies(Seq::<IntersectionPolicy>::empty())
                            =~= Seq::<u64>::empty());
                        assert(encode_policies(seq![p]) =~= seq![encode_policy(p).len() as u64]
                            + encode_policy(p));
                        assert(encode_policies(pols@.push(p)).len() == encode_policies(pols@).len()
                            + 1 + encode_policy(p).len());
                    }
                    pols.push(p);
                    cur = p2;
                },
            }
            i = i + 1;
        }
        let st = IntersectionSimState { intersections: pols };
        let enc = st.encode();
        proof {
            assert forall|c: IntersectionSimState|
                #[trigger] snapshot_of(data@, c) implies enc@ == data@ by {
                assert(c.policies().take(n as int) =~= c.policies());
                assert(encode_policies(c.policies()) == encode_policies(st.policies()));
                assert(encode_state(c) =~= encode_state(st));
            }
        }
        if words_eq(&enc, data) {
            Some(st)
        } else {
            None
        }
    }
}

} // verus!
