//! Ordered containers used by the policies: association lists kept strictly
//! sorted by the total orders on `AgentID` and `Request`.
//!
//! Every map and set that affects admission order or serialized output is
//! value-ordered, never hash-ordered, so two states with the same logical
//! content hold bit-for-bit the same entries and serialize identically.

use crate::ids::{agent_before, agent_lt, req_before, req_lt, AgentID, Request, TurnID};
use vstd::prelude::*;

verus! {

/// Entries strictly sorted by agent.
pub open spec fn agent_entries_sorted(s: Seq<(AgentID, TurnID)>) -> bool {
    forall|i: int, j: int|
        0 <= i < j < s.len() ==> agent_lt((#[trigger] s[i]).0, (#[trigger] s[j]).0)
}

/// Entries strictly sorted by request.
pub open spec fn wait_entries_sorted(s: Seq<(Request, u64)>) -> bool {
    forall|i: int, j: int|
        0 <= i < j < s.len() ==> req_lt((#[trigger] s[i]).0, (#[trigger] s[j]).0)
}

/// Requests strictly sorted.
pub open spec fn requests_sorted(s: Seq<Request>) -> bool {
    forall|i: int, j: int| 0 <= i < j < s.len() ==> req_lt(#[trigger] s[i], #[trigger] s[j])
}

/// The map an agent-keyed entry sequence stands for.
pub open spec fn agent_map_of(s: Seq<(AgentID, TurnID)>) -> Map<AgentID, TurnID> {
    Map::new(
        |a: AgentID| exists|i: int| 0 <= i < s.len() && (#[trigger] s[i]).0 == a,
        |a: AgentID|
            {
                let i = choose|i: int| 0 <= i < s.len() && (#[trigger] s[i]).0 == a;
                s[i].1
            },
    )
}

/// The map a request-keyed entry sequence stands for.
pub open spec fn wait_map_of(s: Seq<(Request, u64)>) -> Map<Request, u64> {
    Map::new(
        |r: Request| exists|i: int| 0 <= i < s.len() && (#[trigger] s[i]).0 == r,
        |r: Request|
            {
                let i = choose|i: int| 0 <= i < s.len() && (#[trigger] s[i]).0 == r;
                s[i].1
            },
    )
}

/// The set a request sequence stands for.
pub open spec fn req_set_of(s: Seq<Request>) -> Set<Request> {
    Set::new(|r: Request| exists|i: int| 0 <= i < s.len() && #[trigger] s[i] == r)
}

/// In a strictly agent-sorted sequence, an agent occurs at most once.
pub proof fn lemma_agent_key_unique(s: Seq<(AgentID, TurnID)>, i: int, j: int)
    requires
        agent_entries_sorted(s),
        0 <= i < s.len(),
        0 <= j < s.len(),
        s[i].0 == s[j].0,
    ensures
        i == j,
{
    if i < j {
        assert(agent_lt(s[i].0, s[j].0));
    } else if j < i {
        assert(agent_lt(s[j].0, s[i].0));
    }
}

/// In a strictly request-sorted sequence, a request occurs at most once.
pub proof fn lemma_req_key_unique(s: Seq<(Request, u64)>, i: int, j: int)
    requires
        wait_entries_sorted(s),
        0 <= i < s.len(),
        0 <= j < s.len(),
        s[i].0 == s[j].0,
    ensures
        i == j,
{
    if i < j {
        assert(req_lt(s[i].0, s[j].0));
    } else if j < i {
        assert(req_lt(s[j].0, s[i].0));
    }
}

/// Bridge between sorted agent entries and their map: every entry is in the
/// map with its own value, and every map entry stands somewhere in the
/// sequence.
pub proof fn lemma_agent_map_view(s: Seq<(AgentID, TurnID)>)
    requires
        agent_entries_sorted(s),
    ensures
        forall|i: int|
            0 <= i < s.len() ==> agent_map_of(s).dom().contains((#[trigger] s[i]).0)
                && agent_map_of(s)[s[i].0] == s[i].1,
        forall|a: AgentID|
            #[trigger] agent_map_of(s).dom().contains(a) ==> exists|i: int|
                0 <= i < s.len() && #[trigger] s[i] == (a, agent_map_of(s)[a]),
{
    assert forall|i: int| 0 <= i < s.len() implies agent_map_of(s).dom().contains(
        (#[trigger] s[i]).0,
    ) && agent_map_of(s)[s[i].0] == s[i].1 by {
        let a = s[i].0;
        assert(agent_map_of(s).dom().contains(a));
        let j = choose|j: int| 0 <= j < s.len() && (#[trigger] s[j]).0 == a;
        lemma_agent_key_unique(s, i, j);
    }
    assert forall|a: AgentID| #[trigger] agent_map_of(s).dom().contains(a) implies exists|i: int|
        0 <= i < s.len() && #[trigger] s[i] == (a, agent_map_of(s)[a]) by {
        let j = choose|j: int| 0 <= j < s.len() && (#[trigger] s[j]).0 == a;
        assert(s[j] == (a, agent_map_of(s)[a]));
    }
}

/// The same bridge for request-keyed entries.
pub proof fn lemma_wait_map_view(s: Seq<(Request, u64)>)
    requires
        wait_entries_sorted(s),
    ensures
        forall|i: int|
            0 <= i < s.len() ==> wait_map_of(s).dom().contains((#[trigger] s[i]).0)
                && wait_map_of(s)[s[i].0] == s[i].1,
        forall|r: Request|
            #[trigger] wait_map_of(s).dom().contains(r) ==> exists|i: int|
                0 <= i < s.len() && #[trigger] s[i] == (r, wait_map_of(s)[r]),
{
    assert forall|i: int| 0 <= i < s.len() implies wait_map_of(s).dom().contains(
        (#[trigger] s[i]).0,
    ) && wait_map_of(s)[s[i].0] == s[i].1 by {
        let r = s[i].0;
        assert(wait_map_of(s).dom().contains(r));
        let j = choose|j: int| 0 <= j < s.len() && (#[trigger] s[j]).0 == r;
        lemma_req_key_unique(s, i, j);
    }
    assert forall|r: Request| #[trigger] wait_map_of(s).dom().contains(r) implies exists|i: int|
        0 <= i < s.len() && #[trigger] s[i] == (r, wait_map_of(s)[r]) by {
        let j = choose|j: int| 0 <= j < s.len() && (#[trigger] s[j]).0 == r;
        assert(s[j] == (r, wait_map_of(s)[r]));
    }
}

/// Ordered map from agent to the turn it was accepted for.
pub struct AgentMap {
    pub entries: Vec<(AgentID, TurnID)>,
}

impl AgentMap {
    /// The entries in their canonical order.
    pub open spec fn seq(self) -> Seq<(AgentID, TurnID)> {
        self.entries@
    }

    /// Strictly sorted by agent.
    pub open spec fn wf(self) -> bool {
        agent_entries_sorted(self.seq())
    }

    /// The association as a mathematical map.
    pub open spec fn as_map(self) -> Map<AgentID, TurnID> {
        agent_map_of(self.seq())
    }

    /// An empty map.
    pub fn new() -> (r: AgentMap)
        ensures
            r.wf(),
            r.as_map() == Map::<AgentID, TurnID>::empty(),
            r.seq() == Seq::<(AgentID, TurnID)>::empty(),
    {
        let r = AgentMap { entries: Vec::new() };
        proof {
            assert(r.as_map() =~= Map::<AgentID, TurnID>::empty());
        }
        r
    }

    /// Number of entries.
    pub fn len(&self) -> (r: usize)
        ensures
            r == self.seq().len(),
    {
        self.entries.len()
    }

    /// Looks an agent up.
    #[verifier::loop_isolation(false)]
    pub fn get(&self, a: AgentID) -> (r: Option<TurnID>)
        requires
            self.wf(),
        ensures
            r == if self.as_map().dom().contains(a) {
                Some(self.as_map()[a])
            } else {
                None::<TurnID>
            },
    {
        let n: usize = self.entries.len();
        let mut k: usize = 0;
        while k < n
            invariant
                n == self.seq().len(),
                k <= n,
                forall|j: int| 0 <= j < k ==> (#[trigger] self.seq()[j]).0 != a,
            decreases n - k,
        {
            if self.entries[k].0 == a {
                proof {
                    lemma_agent_map_view(self.seq());
                }
                return Some(self.entries[k].1);
            }
            k = k + 1;
        }
        None
    }

    /// Inserts or replaces the binding of an agent.
    #[verifier::loop_isolation(false)]
    pub fn insert(&mut self, a: AgentID, t: TurnID)
        requires
            old(self).wf(),
        ensures
            final(self).wf(),
            final(self).as_map() == old(self).as_map().insert(a, t),
    {
        let ghost olds: Seq<(AgentID, TurnID)> = self.entries@;
        let n: usize = self.entries.len();
        // k is the first position whose key is not below a.
        let k: usize = agent_lower_bound(&self.entries, a);
        if k < n && self.entries[k].0 == a {
            self.entries[k] = (a, t);
            proof {
                let news = self.seq();
                assert forall|i: int, j: int| 0 <= i < j < news.len() implies agent_lt(
                    (#[trigger] news[i]).0,
                    (#[trigger] news[j]).0,
                ) by {
                    assert(news[i].0 == olds[i].0);
                    assert(news[j].0 == olds[j].0);
                }
                lemma_agent_insert_replaced(olds, news, k as int, a, t);
            }
        } else {
            self.entries.insert(k, (a, t));
            proof {
                olds.insert_ensures(k as int, (a, t));
                let news = self.seq();
                assert(k < n ==> !agent_lt(olds[k as int].0, a) && olds[k as int].0 != a);
                assert(k < n ==> agent_lt(a, olds[k as int].0));
                assert forall|j: int| 0 <= j < olds.len() implies (#[trigger] olds[j]).0 != a by {
                    if j > k as int {
                        assert(agent_lt(olds[k as int].0, olds[j].0));
                    }
                }
                assert forall|i: int, j: int| 0 <= i < j < news.len() implies agent_lt(
                    (#[trigger] news[i]).0,
                    (#[trigger] news[j]).0,
                ) by {
                    if j < k as int {
                        assert(news[i] == olds[i] && news[j] == olds[j]);
                    } else if j == k as int {
                        assert(news[i] == olds[i] && news[j] == (a, t));
                    } else if i == k as int {
                        assert(news[j] == olds[j - 1] && news[i] == (a, t));
                        assert(agent_lt(olds[k as int].0, olds[j - 1].0) || k as int == j - 1);
                    } else if i < k as int {
                        assert(news[i] == olds[i] && news[j] == olds[j - 1]);
                    } else {
                        assert(news[i] == olds[i - 1] && news[j] == olds[j - 1]);
                    }
                }
                lemma_agent_insert_fresh(olds, news, k as int, a, t);
            }
        }
    }

    /// Removes an agent's binding if it is there.
    #[verifier::loop_isolation(false)]
    pub fn remove(&mut self, a: AgentID)
        requires
            old(self).wf(),
        ensures
            final(self).wf(),
            final(self).as_map() == old(self).as_map().remove(a),
    {
        let ghost olds: Seq<(AgentID, TurnID)> = self.entries@;
        let n: usize = self.entries.len();
        let mut k: usize = 0;
        while k < n
            invariant
                k <= n,
                self == old(self),
                forall|j: int| 0 <= j < k ==> (#[trigger] olds[j]).0 != a,
            decreases n - k,
        {
            if self.entries[k].0 == a {
                let _removed = self.entries.remove(k);
                proof {
                    olds.remove_ensures(k as int);
                    let news = self.seq();
                    assert forall|i: int, j: int| 0 <= i < j < news.len() implies agent_lt(
                        (#[trigger] news[i]).0,
                        (#[trigger] news[j]).0,
                    ) by {
                        if j < k as int {
                            assert(news[i] == olds[i] && news[j] == olds[j]);
                        } else if i < k as int {
                            assert(news[i] == olds[i] && news[j] == olds[j + 1]);
                        } else {
                            assert(news[i] == olds[i + 1] && news[j] == olds[j + 1]);
                        }
                    }
                    lemma_agent_remove(olds, news, k as int, a);
                }
                return ;
            }
            k = k + 1;
        }
        proof {
            assert(!agent_map_of(olds).dom().contains(a));
            assert(self.as_map() =~= old(self).as_map().remove(a));
        }
    }
}

/// Canonical order is value-determined: two sorted agent-entry sequences
/// standing for the same map are the same sequence. Two states with the same
/// logical content therefore hold bit-for-bit the same entries.
pub proof fn lemma_agent_entries_canonical(s1: Seq<(AgentID, TurnID)>, s2: Seq<(AgentID, TurnID)>)
    requires
        agent_entries_sorted(s1),
        agent_entries_sorted(s2),
        agent_map_of(s1) == agent_map_of(s2),
    ensures
        s1 == s2,
    decreases s1.len(),
{
    lemma_agent_map_view(s1);
    lemma_agent_map_view(s2);
    if s1.len() == 0 {
        if s2.len() > 0 {
            assert(agent_map_of(s2).dom().contains(s2[0].0));
            assert(false);
        }
        assert(s1 =~= s2);
    } else if s2.len() == 0 {
        assert(agent_map_of(s1).dom().contains(s1[0].0));
        assert(false);
    } else {
        let k1 = s1[0].0;
        let k2 = s2[0].0;
        assert(agent_map_of(s2).dom().contains(k1));
        let j = choose|j: int| 0 <= j < s2.len() && (#[trigger] s2[j]).0 == k1;
        assert(agent_map_of(s1).dom().contains(k2));
        let i = choose|i: int| 0 <= i < s1.len() && (#[trigger] s1[i]).0 == k2;
        if j > 0 && i > 0 {
            assert(agent_lt(k2, k1));
            assert(agent_lt(k1, k2));
            assert(false);
        }
        assert(k1 == k2);
        assert(s1[0].1 == agent_map_of(s1)[k1]);
        assert(s2[0].1 == agent_map_of(s2)[k1]);
        assert(s1[0] == s2[0]);
        let t1 = s1.drop_first();
        let t2 = s2.drop_first();
        assert forall|a: int, b: int| 0 <= a < b < t1.len() implies agent_lt(
            (#[trigger] t1[a]).0,
            (#[trigger] t1[b]).0,
        ) by {
            assert(t1[a] == s1[a + 1] && t1[b] == s1[b + 1]);
        }
        assert forall|a: int, b: int| 0 <= a < b < t2.len() implies agent_lt(
            (#[trigger] t2[a]).0,
            (#[trigger] t2[b]).0,
        ) by {
            assert(t2[a] == s2[a + 1] && t2[b] == s2[b + 1]);
        }
        lemma_agent_map_view(t1);
        lemma_agent_map_view(t2);
        assert forall|b: AgentID| #[trigger] agent_map_of(t1).dom().contains(b)
            implies agent_map_of(t2).dom().contains(b) && agent_map_of(t1)[b] == agent_map_of(
            t2,
        )[b] by {
            let p = choose|p: int| 0 <= p < t1.len() && (#[trigger] t1[p]).0 == b;
            assert(t1[p] == s1[p + 1]);
            assert(agent_lt(s1[0].0, s1[p + 1].0));
            assert(b != k1);
            assert(agent_map_of(s2).dom().contains(b));
            let q = choose|q: int| 0 <= q < s2.len() && (#[trigger] s2[q]).0 == b;
            assert(q != 0);
            assert(t2[q - 1] == s2[q]);
            assert(agent_map_of(t1)[b] == s1[p + 1].1);
            assert(agent_map_of(s1)[b] == s1[p + 1].1);
            assert(agent_map_of(t2)[b] == s2[q].1);
            assert(agent_map_of(s2)[b] == s2[q].1);
        }
        assert forall|b: AgentID| #[trigger] agent_map_of(t2).dom().contains(b)
            implies agent_map_of(t1).dom().contains(b) by {
            let q = choose|q: int| 0 <= q < t2.len() && (#[trigger] t2[q]).0 == b;
            assert(t2[q] == s2[q + 1]);
            assert(agent_lt(s2[0].0, s2[q + 1].0));
            assert(b != k1);
            assert(agent_map_of(s1).dom().contains(b));
            let p = choose|p: int| 0 <= p < s1.len() && (#[trigger] s1[p]).0 == b;
            assert(p != 0);
            assert(t1[p - 1] == s1[p]);
        }
        assert(agent_map_of(t1) =~= agent_map_of(t2));
        lemma_agent_entries_canonical(t1, t2);
        assert forall|p: int| 0 <= p < s1.len() implies s1[p] == s2[p] by {
            if p > 0 {
                assert(s1[p] == t1[p - 1] && s2[p] == t2[p - 1]);
            }
        }
        assert(s1 =~= s2);
    }
}

/// The same canonicity for request-keyed entries.
pub proof fn lemma_wait_entries_canonical(s1: Seq<(Request, u64)>, s2: Seq<(Request, u64)>)
    requires
        wait_entries_sorted(s1),
        wait_entries_sorted(s2),
        wait_map_of(s1) == wait_map_of(s2),
    ensures
        s1 == s2,
    decreases s1.len(),
{
    lemma_wait_map_view(s1);
    lemma_wait_map_view(s2);
    if s1.len() == 0 {
        if s2.len() > 0 {
            assert(wait_map_of(s2).dom().contains(s2[0].0));
            assert(false);
        }
        assert(s1 =~= s2);
    } else if s2.len() == 0 {
        assert(wait_map_of(s1).dom().contains(s1[0].0));
        assert(false);
    } else {
        let k1 = s1[0].0;
        let k2 = s2[0].0;
        assert(wait_map_of(s2).dom().contains(k1));
        let j = choose|j: int| 0 <= j < s2.len() && (#[trigger] s2[j]).0 == k1;
        assert(wait_map_of(s1).dom().contains(k2));
        let i = choose|i: int| 0 <= i < s1.len() && (#[trigger] s1[i]).0 == k2;
        if j > 0 && i > 0 {
            assert(req_lt(k2, k1));
            assert(req_lt(k1, k2));
            assert(false);
        }
        assert(k1 == k2);
        assert(s1[0].1 == wait_map_of(s1)[k1]);
        assert(s2[0].1 == wait_map_of(s2)[k1]);
        assert(s1[0] == s2[0]);
        let t1 = s1.drop_first();
        let t2 = s2.drop_first();
        assert forall|a: int, b: int| 0 <= a < b < t1.len() implies req_lt(
            (#[trigger] t1[a]).0,
            (#[trigger] t1[b]).0,
        ) by {
            assert(t1[a] == s1[a + 1] && t1[b] == s1[b + 1]);
        }
        assert forall|a: int, b: int| 0 <= a < b < t2.len() implies req_lt(
            (#[trigger] t2[a]).0,
            (#[trigger] t2[b]).0,
        ) by {
            assert(t2[a] == s2[a + 1] && t2[b] == s2[b + 1]);
        }
        lemma_wait_map_view(t1);
        lemma_wait_map_view(t2);
        assert forall|b: Request| #[trigger] wait_map_of(t1).dom().contains(b)
            implies wait_map_of(t2).dom().contains(b) && wait_map_of(t1)[b] == wait_map_of(
            t2,
        )[b] by {
            let p = choose|p: int| 0 <= p < t1.len() && (#[trigger] t1[p]).0 == b;
            assert(t1[p] == s1[p + 1]);
            assert(req_lt(s1[0].0, s1[p + 1].0));
            assert(b != k1);
            assert(wait_map_of(s2).dom().contains(b));
            let q = choose|q: int| 0 <= q < s2.len() && (#[trigger] s2[q]).0 == b;
            assert(q != 0);
            assert(t2[q - 1] == s2[q]);
            assert(wait_map_of(t1)[b] == s1[p + 1].1);
            assert(wait_map_of(s1)[b] == s1[p + 1].1);
            assert(wait_map_of(t2)[b] == s2[q].1);
            assert(wait_map_of(s2)[b] == s2[q].1);
        }
        assert forall|b: Request| #[trigger] wait_map_of(t2).dom().contains(b)
            implies wait_map_of(t1).dom().contains(b) by {
            let q = choose|q: int| 0 <= q < t2.len() && (#[trigger] t2[q]).0 == b;
            assert(t2[q] == s2[q + 1]);
            assert(req_lt(s2[0].0, s2[q + 1].0));
            assert(b != k1);
            assert(wait_map_of(s1).dom().contains(b));
            let p = choose|p: int| 0 <= p < s1.len() && (#[trigger] s1[p]).0 == b;
            assert(p != 0);
            assert(t1[p - 1] == s1[p]);
        }
        assert(wait_map_of(t1) =~= wait_map_of(t2));
        lemma_wait_entries_canonical(t1, t2);
        assert forall|p: int| 0 <= p < s1.len() implies s1[p] == s2[p] by {
            if p > 0 {
                assert(s1[p] == t1[p - 1] && s2[p] == t2[p - 1]);
            }
        }
        assert(s1 =~= s2);
    }
}

/// The same canonicity for sorted request sets.
pub proof fn lemma_requests_canonical(s1: Seq<Request>, s2: Seq<Request>)
    requires
        requests_sorted(s1),
        requests_sorted(s2),
        req_set_of(s1) == req_set_of(s2),
    ensures
        s1 == s2,
    decreases s1.len(),
{
    if s1.len() == 0 {
        if s2.len() > 0 {
            assert(req_set_of(s2).contains(s2[0]));
            assert(false);
        }
        assert(s1 =~= s2);
    } else if s2.len() == 0 {
        assert(req_set_of(s1).contains(s1[0]));
        assert(false);
    } else {
        let k1 = s1[0];
        let k2 = s2[0];
        assert(req_set_of(s1).contains(k1));
        assert(req_set_of(s2).contains(k1));
        let j = choose|j: int| 0 <= j < s2.len() && #[trigger] s2[j] == k1;
        assert(req_set_of(s2).contains(k2));
        assert(req_set_of(s1).contains(k2));
        let i = choose|i: int| 0 <= i < s1.len() && #[trigger] s1[i] == k2;
        if j > 0 && i > 0 {
            assert(req_lt(k2, k1));
            assert(req_lt(k1, k2));
            assert(false);
        }
        assert(k1 == k2);
        let t1 = s1.drop_first();
        let t2 = s2.drop_first();
        assert forall|a: int, b: int| 0 <= a < b < t1.len() implies req_lt(
            #[trigger] t1[a],
            #[trigger] t1[b],
        ) by {
            assert(t1[a] == s1[a + 1] && t1[b] == s1[b + 1]);
        }
        assert forall|a: int, b: int| 0 <= a < b < t2.len() implies req_lt(
            #[trigger] t2[a],
            #[trigger] t2[b],
        ) by {
            assert(t2[a] == s2[a + 1] && t2[b] == s2[b + 1]);
        }
        assert forall|b: Request| #[trigger] req_set_of(t1).contains(b) implies req_set_of(
            t2,
        ).contains(b) by {
            let p = choose|p: int| 0 <= p < t1.len() && #[trigger] t1[p] == b;
            assert(t1[p] == s1[p + 1]);
            assert(req_lt(s1[0], s1[p + 1]));
            assert(b != k1);
            assert(req_set_of(s1).contains(b));
            assert(req_set_of(s2).contains(b));
            let q = choose|q: int| 0 <= q < s2.len() && #[trigger] s2[q] == b;
            assert(q != 0);
            assert(t2[q - 1] == s2[q]);
        }
        assert forall|b: Request| #[trigger] req_set_of(t2).contains(b) implies req_set_of(
            t1,
        ).contains(b) by {
            let q = choose|q: int| 0 <= q < t2.len() && #[trigger] t2[q] == b;
            assert(t2[q] == s2[q + 1]);
            assert(req_lt(s2[0], s2[q + 1]));
            assert(b != k1);
            assert(req_set_of(s2).contains(b));
            assert(req_set_of(s1).contains(b));
            let p = choose|p: int| 0 <= p < s1.len() && #[trigger] s1[p] == b;
            assert(p != 0);
            assert(t1[p - 1] == s1[p]);
        }
        assert(req_set_of(t1) =~= req_set_of(t2));
        lemma_requests_canonical(t1, t2);
        assert forall|p: int| 0 <= p < s1.len() implies s1[p] == s2[p] by {
            if p > 0 {
                assert(s1[p] == t1[p - 1] && s2[p] == t2[p - 1]);
            }
        }
        assert(s1 =~= s2);
    }
}

/// The accepted map after admitting the first `p` requests of `s` in order,
/// each keyed by its agent.
pub open spec fn acc_with(acc: Map<AgentID, TurnID>, s: Seq<Request>, p: int) -> Map<
    AgentID,
    TurnID,
>
    decreases p,
{
    if p <= 0 {
        acc
    } else {
        acc_with(acc, s, p - 1).insert(s[p - 1].agent, s[p - 1].turn)
    }
}

/// When the admitted requests carry pairwise distinct agents, none of them
/// already accepted, admission adds exactly one binding per request and keeps
/// the old bindings.
pub proof fn lemma_acc_with(acc: Map<AgentID, TurnID>, s: Seq<Request>, p: int)
    requires
        0 <= p <= s.len(),
        forall|q1: int, q2: int|
            0 <= q1 < q2 < s.len() ==> (#[trigger] s[q1]).agent != (#[trigger] s[q2]).agent,
        forall|q: int| 0 <= q < s.len() ==> !acc.dom().contains((#[trigger] s[q]).agent),
    ensures
        forall|a: AgentID|
            #[trigger] acc_with(acc, s, p).dom().contains(a) <==> (acc.dom().contains(a)
                || exists|q: int| 0 <= q < p && (#[trigger] s[q]).agent == a),
        forall|a: AgentID|
            #[trigger] acc.dom().contains(a) ==> acc_with(acc, s, p)[a] == acc[a],
        forall|q: int|
            0 <= q < p ==> acc_with(acc, s, p)[(#[trigger] s[q]).agent] == s[q].turn,
    decreases p,
{
    if p > 0 {
        lemma_acc_with(acc, s, p - 1);
        assert forall|a: AgentID| #[trigger] acc_with(acc, s, p).dom().contains(a) implies (
        acc.dom().contains(a) || exists|q: int| 0 <= q < p && (#[trigger] s[q]).agent == a) by {
            if a == s[p - 1].agent {
                assert(0 <= p - 1 < p && (#[trigger] s[p - 1]).agent == a);
            } else {
                assert(acc_with(acc, s, p - 1).dom().contains(a));
                if !acc.dom().contains(a) {
                    let q = choose|q: int| 0 <= q < p - 1 && (#[trigger] s[q]).agent == a;
                    assert(0 <= q < p && s[q].agent == a);
                }
            }
        }
        assert forall|a: AgentID| (acc.dom().contains(a) || exists|q: int|
            0 <= q < p && (#[trigger] s[q]).agent == a) implies #[trigger] acc_with(
            acc,
            s,
            p,
        ).dom().contains(a) by {
            if !acc.dom().contains(a) && a != s[p - 1].agent {
                let q = choose|q: int| 0 <= q < p && (#[trigger] s[q]).agent == a;
                assert(0 <= q < p - 1);
            }
        }
        assert forall|q: int| 0 <= q < p implies acc_with(acc, s, p)[(#[trigger] s[q]).agent]
            == s[q].turn by {
            if q < p - 1 {
                assert(s[q].agent != s[p - 1].agent);
            }
        }
    }
}

/// First position in a sorted entry sequence whose key is not below `a`.
#[verifier::loop_isolation(false)]
fn agent_lower_bound(entries: &Vec<(AgentID, TurnID)>, a: AgentID) -> (k: usize)
    requires
        agent_entries_sorted(entries@),
    ensures
        k <= entries@.len(),
        forall|j: int| 0 <= j < k ==> agent_lt((#[trigger] entries@[j]).0, a),
        k < entries@.len() ==> !agent_lt(entries@[k as int].0, a),
{
    let n: usize = entries.len();
    let mut k: usize = 0;
    while k < n
        invariant
            k <= n,
            forall|j: int| 0 <= j < k ==> agent_lt((#[trigger] entries@[j]).0, a),
        decreases n - k,
    {
        if !agent_before(entries[k].0, a) {
            return k;
        }
        k = k + 1;
    }
    k
}

/// Replacing the value at the position whose key is `a` binds `a` to `t` and
/// changes nothing else.
proof fn lemma_agent_insert_replaced(
    olds: Seq<(AgentID, TurnID)>,
    news: Seq<(AgentID, TurnID)>,
    k: int,
    a: AgentID,
    t: TurnID,
)
    requires
        agent_entries_sorted(olds),
        agent_entries_sorted(news),
        0 <= k < olds.len(),
        olds[k].0 == a,
        news == olds.update(k, (a, t)),
    ensures
        agent_map_of(news) == agent_map_of(olds).insert(a, t),
{
    lemma_agent_map_view(olds);
    lemma_agent_map_view(news);
    assert forall|b: AgentID| #[trigger] agent_map_of(news).dom().contains(b)
        implies agent_map_of(olds).insert(a, t).dom().contains(b) && agent_map_of(news)[b]
        == agent_map_of(olds).insert(a, t)[b] by {
        let i = choose|i: int| 0 <= i < news.len() && (#[trigger] news[i]).0 == b;
        if i == k {
            assert(news[i] == (a, t));
        } else {
            if b == a {
                lemma_agent_key_unique(news, i, k);
            }
            assert(news[i] == olds[i]);
        }
    }
    assert forall|b: AgentID| #[trigger] agent_map_of(olds).insert(a, t).dom().contains(b)
        implies agent_map_of(news).dom().contains(b) by {
        if b == a {
            assert(news[k].0 == a);
        } else {
            let i = choose|i: int| 0 <= i < olds.len() && (#[trigger] olds[i]).0 == b;
            assert(i != k);
            assert(news[i] == olds[i]);
        }
    }
    assert(agent_map_of(news) =~= agent_map_of(olds).insert(a, t));
}

/// Inserting `(a, t)` at position `k`, where `a` was absent, binds `a` to `t`
/// and changes nothing else.
proof fn lemma_agent_insert_fresh(
    olds: Seq<(AgentID, TurnID)>,
    news: Seq<(AgentID, TurnID)>,
    k: int,
    a: AgentID,
    t: TurnID,
)
    requires
        agent_entries_sorted(olds),
        agent_entries_sorted(news),
        0 <= k <= olds.len(),
        forall|j: int| 0 <= j < olds.len() ==> (#[trigger] olds[j]).0 != a,
        news == olds.insert(k, (a, t)),
    ensures
        agent_map_of(news) == agent_map_of(olds).insert(a, t),
{
    olds.insert_ensures(k, (a, t));
    lemma_agent_map_view(olds);
    lemma_agent_map_view(news);
    assert forall|b: AgentID| #[trigger] agent_map_of(news).dom().contains(b)
        implies agent_map_of(olds).insert(a, t).dom().contains(b) && agent_map_of(news)[b]
        == agent_map_of(olds).insert(a, t)[b] by {
        let i = choose|i: int| 0 <= i < news.len() && (#[trigger] news[i]).0 == b;
        if i == k {
            assert(news[i] == (a, t));
        } else if i < k {
            assert(news[i] == olds[i]);
            assert(b != a);
        } else {
            assert(news[i] == olds[i - 1]);
            assert(b != a);
        }
    }
    assert forall|b: AgentID| #[trigger] agent_map_of(olds).insert(a, t).dom().contains(b)
        implies agent_map_of(news).dom().contains(b) by {
        if b == a {
            assert(news[k] == (a, t));
        } else {
            let i = choose|i: int| 0 <= i < olds.len() && (#[trigger] olds[i]).0 == b;
            if i < k {
                assert(news[i] == olds[i]);
            } else {
                assert(news[i + 1] == olds[i]);
            }
        }
    }
    assert(agent_map_of(news) =~= agent_map_of(olds).insert(a, t));
}

/// Ordered map from request to the tick the request was first seen.
pub struct WaitQueue {
    pub entries: Vec<(Request, u64)>,
}

impl WaitQueue {
    /// The entries in their canonical order.
    pub open spec fn seq(self) -> Seq<(Request, u64)> {
        self.entries@
    }

    /// Strictly sorted by request.
    pub open spec fn wf(self) -> bool {
        wait_entries_sorted(self.seq())
    }

    /// The association as a mathematical map.
    pub open spec fn as_map(self) -> Map<Request, u64> {
        wait_map_of(self.seq())
    }

    /// An empty queue.
    pub fn new() -> (r: WaitQueue)
        ensures
            r.wf(),
            r.as_map() == Map::<Request, u64>::empty(),
            r.seq() == Seq::<(Request, u64)>::empty(),
    {
        let r = WaitQueue { entries: Vec::new() };
        proof {
            assert(r.as_map() =~= Map::<Request, u64>::empty());
        }
        r
    }

    /// Number of entries.
    pub fn len(&self) -> (r: usize)
        ensures
            r == self.seq().len(),
    {
        self.entries.len()
    }

    /// Whether a request is queued.
    #[verifier::loop_isolation(false)]
    pub fn contains_key(&self, r: Request) -> (b: bool)
        requires
            self.wf(),
        ensures
            b == self.as_map().dom().contains(r),
    {
        let n: usize = self.entries.len();
        let mut k: usize = 0;
        while k < n
            invariant
                k <= n,
                forall|j: int| 0 <= j < k ==> (#[trigger] self.seq()[j]).0 != r,
            decreases n - k,
        {
            if self.entries[k].0 == r {
                return true;
            }
            k = k + 1;
        }
        false
    }

    /// Records a request at the given tick, unless it is already recorded;
    /// a repeated submission never resets the tick first seen.
    #[verifier::loop_isolation(false)]
    #[verifier::rlimit(30)]
    pub fn insert_if_absent(&mut self, r: Request, time: u64)
        requires
            old(self).wf(),
        ensures
            final(self).wf(),
            final(self).as_map() == if old(self).as_map().dom().contains(r) {
                old(self).as_map()
            } else {
                old(self).as_map().insert(r, time)
            },
    {
        let ghost olds: Seq<(Request, u64)> = self.entries@;
        let n: usize = self.entries.len();
        let k: usize = req_lower_bound(&self.entries, r);
        if k < n && self.entries[k].0 == r {
            proof {
                assert(self.as_map().dom().contains(r));
            }
        } else {
            self.entries.insert(k, (r, time));
            proof {
                olds.insert_ensures(k as int, (r, time));
                let news = self.seq();
                assert(k < n ==> !req_lt(olds[k as int].0, r) && olds[k as int].0 != r);
                assert(k < n ==> req_lt(r, olds[k as int].0));
                assert forall|j: int| 0 <= j < olds.len() implies (#[trigger] olds[j]).0 != r by {
                    if j > k as int {
                        assert(req_lt(olds[k as int].0, olds[j].0));
                    }
                }
                assert(!wait_map_of(olds).dom().contains(r));
                assert forall|i: int, j: int| 0 <= i < j < news.len() implies req_lt(
                    (#[trigger] news[i]).0,
                    (#[trigger] news[j]).0,
                ) by {
                    if j < k as int {
                        assert(news[i] == olds[i] && news[j] == olds[j]);
                    } else if j == k as int {
                        assert(news[i] == olds[i] && news[j] == (r, time));
                    } else if i == k as int {
                        assert(news[j] == olds[j - 1] && news[i] == (r, time));
                        assert(req_lt(olds[k as int].0, olds[j - 1].0) || k as int == j - 1);
                    } else if i < k as int {
                        assert(news[i] == olds[i] && news[j] == olds[j - 1]);
                    } else {
                        assert(news[i] == olds[i - 1] && news[j] == olds[j - 1]);
                    }
                }
                lemma_wait_insert_fresh(olds, news, k as int, r, time);
            }
        }
    }

    /// Removes a request if it is queued.
    #[verifier::loop_isolation(false)]
    pub fn remove(&mut self, r: Request)
        requires
            old(self).wf(),
        ensures
            final(self).wf(),
            final(self).as_map() == old(self).as_map().remove(r),
    {
        let ghost olds: Seq<(Request, u64)> = self.entries@;
        let n: usize = self.entries.len();
        let mut k: usize = 0;
        while k < n
            invariant
                k <= n,
                self == old(self),
                forall|j: int| 0 <= j < k ==> (#[trigger] olds[j]).0 != r,
            decreases n - k,
        {
            if self.entries[k].0 == r {
                let _removed = self.entries.remove(k);
                proof {
                    olds.remove_ensures(k as int);
                    let news = self.seq();
                    assert forall|i: int, j: int| 0 <= i < j < news.len() implies req_lt(
                        (#[trigger] news[i]).0,
                        (#[trigger] news[j]).0,
                    ) by {
                        if j < k as int {
                            assert(news[i] == olds[i] && news[j] == olds[j]);
                        } else if i < k as int {
                            assert(news[i] == olds[i] && news[j] == olds[j + 1]);
                        } else {
                            assert(news[i] == olds[i + 1] && news[j] == olds[j + 1]);
                        }
                    }
                    lemma_wait_remove(olds, news, k as int, r);
                }
                return ;
            }
            k = k + 1;
        }
        proof {
            assert(!wait_map_of(olds).dom().contains(r));
            assert(self.as_map() =~= old(self).as_map().remove(r));
        }
    }
}

/// First position in a sorted wait queue whose key is not below `r`.
#[verifier::loop_isolation(false)]
fn req_lower_bound(entries: &Vec<(Request, u64)>, r: Request) -> (k: usize)
    requires
        wait_entries_sorted(entries@),
    ensures
        k <= entries@.len(),
        forall|j: int| 0 <= j < k ==> req_lt((#[trigger] entries@[j]).0, r),
        k < entries@.len() ==> !req_lt(entries@[k as int].0, r),
{
    let n: usize = entries.len();
    let mut k: usize = 0;
    while k < n
        invariant
            k <= n,
            forall|j: int| 0 <= j < k ==> req_lt((#[trigger] entries@[j]).0, r),
        decreases n - k,
    {
        if !req_before(entries[k].0, r) {
            return k;
        }
        k = k + 1;
    }
    k
}

/// First position in a sorted request sequence that is not below `r`.
#[verifier::loop_isolation(false)]
fn reqset_lower_bound(entries: &Vec<Request>, r: Request) -> (k: usize)
    requires
        requests_sorted(entries@),
    ensures
        k <= entries@.len(),
        forall|j: int| 0 <= j < k ==> req_lt(#[trigger] entries@[j], r),
        k < entries@.len() ==> !req_lt(entries@[k as int], r),
{
    let n: usize = entries.len();
    let mut k: usize = 0;
    while k < n
        invariant
            k <= n,
            forall|j: int| 0 <= j < k ==> req_lt(#[trigger] entries@[j], r),
        decreases n - k,
    {
        if !req_before(entries[k], r) {
            return k;
        }
        k = k + 1;
    }
    k
}

/// Inserting `(r, time)` at position `k`, where `r` was absent, binds `r` to
/// `time` and changes nothing else.
proof fn lemma_wait_insert_fresh(
    olds: Seq<(Request, u64)>,
    news: Seq<(Request, u64)>,
    k: int,
    r: Request,
    time: u64,
)
    requires
        wait_entries_sorted(olds),
        wait_entries_sorted(news),
        0 <= k <= olds.len(),
        forall|j: int| 0 <= j < olds.len() ==> (#[trigger] olds[j]).0 != r,
        news == olds.insert(k, (r, time)),
    ensures
        wait_map_of(news) == wait_map_of(olds).insert(r, time),
{
    olds.insert_ensures(k, (r, time));
    lemma_wait_map_view(olds);
    lemma_wait_map_view(news);
    assert forall|b: Request| #[trigger] wait_map_of(news).dom().contains(b)
        implies wait_map_of(olds).insert(r, time).dom().contains(b) && wait_map_of(news)[b]
        == wait_map_of(olds).insert(r, time)[b] by {
        let i = choose|i: int| 0 <= i < news.len() && (#[trigger] news[i]).0 == b;
        if i == k {
            assert(news[i] == (r, time));
        } else if i < k {
            assert(news[i] == olds[i]);
            assert(b != r);
        } else {
            assert(news[i] == olds[i - 1]);
            assert(b != r);
        }
    }
    assert forall|b: Request| #[trigger] wait_map_of(olds).insert(r, time).dom().contains(b)
        implies wait_map_of(news).dom().contains(b) by {
        if b == r {
            assert(news[k] == (r, time));
        } else {
            let i = choose|i: int| 0 <= i < olds.len() && (#[trigger] olds[i]).0 == b;
            if i < k {
                assert(news[i] == olds[i]);
            } else {
                assert(news[i + 1] == olds[i]);
            }
        }
    }
    assert(wait_map_of(news) =~= wait_map_of(olds).insert(r, time));
}

/// Taking out the position whose key is `r` drops `r` and changes nothing
/// else.
proof fn lemma_wait_remove(olds: Seq<(Request, u64)>, news: Seq<(Request, u64)>, k: int, r: Request)
    requires
        wait_entries_sorted(olds),
        wait_entries_sorted(news),
        0 <= k < olds.len(),
        olds[k].0 == r,
        news == olds.remove(k),
    ensures
        wait_map_of(news) == wait_map_of(olds).remove(r),
{
    olds.remove_ensures(k);
    lemma_wait_map_view(olds);
    lemma_wait_map_view(news);
    assert forall|b: Request| #[trigger] wait_map_of(news).dom().contains(b)
        implies wait_map_of(olds).remove(r).dom().contains(b) && wait_map_of(news)[b]
        == wait_map_of(olds).remove(r)[b] by {
        let i = choose|i: int| 0 <= i < news.len() && (#[trigger] news[i]).0 == b;
        let oi = if i < k {
            i
        } else {
            i + 1
        };
        assert(news[i] == olds[oi]);
        if b == r {
            lemma_req_key_unique(olds, oi, k);
        }
    }
    assert forall|b: Request| #[trigger] wait_map_of(olds).remove(r).dom().contains(b)
        implies wait_map_of(news).dom().contains(b) by {
        let i = choose|i: int| 0 <= i < olds.len() && (#[trigger] olds[i]).0 == b;
        assert(i != k);
        if i < k {
            assert(news[i] == olds[i]);
        } else {
            assert(news[i - 1] == olds[i]);
        }
    }
    assert(wait_map_of(news) =~= wait_map_of(olds).remove(r));
}

/// Ordered set of pending requests.
pub struct RequestSet {
    pub entries: Vec<Request>,
}

impl RequestSet {
    /// The requests in their canonical order.
    pub open spec fn seq(self) -> Seq<Request> {
        self.entries@
    }

    /// Strictly sorted.
    pub open spec fn wf(self) -> bool {
        requests_sorted(self.seq())
    }

    /// The requests as a mathematical set.
    pub open spec fn as_set(self) -> Set<Request> {
        req_set_of(self.seq())
    }

    /// An empty set.
    pub fn new() -> (r: RequestSet)
        ensures
            r.wf(),
            r.as_set() == Set::<Request>::empty(),
            r.seq() == Seq::<Request>::empty(),
    {
        let r = RequestSet { entries: Vec::new() };
        proof {
            assert(r.as_set() =~= Set::<Request>::empty());
        }
        r
    }

    /// Number of requests.
    pub fn len(&self) -> (r: usize)
        ensures
            r == self.seq().len(),
    {
        self.entries.len()
    }

    /// Adds a request; adding one already there changes nothing.
    #[verifier::loop_isolation(false)]
    pub fn insert(&mut self, r: Request)
        requires
            old(self).wf(),
        ensures
            final(self).wf(),
            final(self).as_set() == old(self).as_set().insert(r),
    {
        let ghost olds: Seq<Request> = self.entries@;
        let n: usize = self.entries.len();
        let k: usize = reqset_lower_bound(&self.entries, r);
        if k < n && self.entries[k] == r {
            proof {
                assert(self.as_set().contains(r));
                assert(self.as_set() =~= old(self).as_set().insert(r));
            }
            return ;
        }
        // All keys before position k are below r, and r is absent.
        proof {
            assert forall|j: int| 0 <= j < olds.len() implies #[trigger] olds[j] != r by {
                if j > k as int {
                    assert(req_lt(olds[k as int], olds[j]));
                    assert(!req_lt(olds[k as int], r));
                }
            }
        }
        self.entries.insert(k, r);
        proof {
            olds.insert_ensures(k as int, r);
            let news = self.seq();
            assert(k < n ==> !req_lt(olds[k as int], r) && olds[k as int] != r);
            assert(k < n ==> req_lt(r, olds[k as int]));
            assert forall|i: int, j: int| 0 <= i < j < news.len() implies req_lt(
                #[trigger] news[i],
                #[trigger] news[j],
            ) by {
                if j < k as int {
                    assert(news[i] == olds[i] && news[j] == olds[j]);
                } else if j == k as int {
                    assert(news[i] == olds[i] && news[j] == r);
                } else if i == k as int {
                    assert(news[j] == olds[j - 1] && news[i] == r);
                    assert(req_lt(olds[k as int], olds[j - 1]) || k as int == j - 1);
                } else if i < k as int {
                    assert(news[i] == olds[i] && news[j] == olds[j - 1]);
                } else {
                    assert(news[i] == olds[i - 1] && news[j] == olds[j - 1]);
                }
            }
            assert forall|b: Request| #[trigger] req_set_of(news).contains(b) implies req_set_of(
                olds,
            ).insert(r).contains(b) by {
                let i = choose|i: int| 0 <= i < news.len() && #[trigger] news[i] == b;
                if i < k as int {
                    assert(news[i] == olds[i]);
                } else if i > k as int {
                    assert(news[i] == olds[i - 1]);
                }
            }
            assert forall|b: Request| #[trigger] req_set_of(olds).insert(r).contains(b)
                implies req_set_of(news).contains(b) by {
                if b == r {
                    assert(news[k as int] == r);
                } else {
                    let i = choose|i: int| 0 <= i < olds.len() && #[trigger] olds[i] == b;
                    if i < k as int {
                        assert(news[i] == olds[i]);
                    } else {
                        assert(news[i + 1] == olds[i]);
                    }
                }
            }
            assert(self.as_set() =~= old(self).as_set().insert(r));
        }
    }
}

/// Taking out the position whose key is `a` drops `a` and changes nothing
/// else.
proof fn lemma_agent_remove(
    olds: Seq<(AgentID, TurnID)>,
    news: Seq<(AgentID, TurnID)>,
    k: int,
    a: AgentID,
)
    requires
        agent_entries_sorted(olds),
        agent_entries_sorted(news),
        0 <= k < olds.len(),
        olds[k].0 == a,
        news == olds.remove(k),
    ensures
        agent_map_of(news) == agent_map_of(olds).remove(a),
{
    olds.remove_ensures(k);
    lemma_agent_map_view(olds);
    lemma_agent_map_view(news);
    assert forall|b: AgentID| #[trigger] agent_map_of(news).dom().contains(b)
        implies agent_map_of(olds).remove(a).dom().contains(b) && agent_map_of(news)[b]
        == agent_map_of(olds).remove(a)[b] by {
        let i = choose|i: int| 0 <= i < news.len() && (#[trigger] news[i]).0 == b;
        let oi = if i < k {
            i
        } else {
            i + 1
        };
        assert(news[i] == olds[oi]);
        if b == a {
            lemma_agent_key_unique(olds, oi, k);
        }
    }
    assert forall|b: AgentID| #[trigger] agent_map_of(olds).remove(a).dom().contains(b)
        implies agent_map_of(news).dom().contains(b) by {
        let i = choose|i: int| 0 <= i < olds.len() && (#[trigger] olds[i]).0 == b;
        assert(i != k);
        if i < k {
            assert(news[i] == olds[i]);
        } else {
            assert(news[i - 1] == olds[i]);
        }
    }
    assert(agent_map_of(news) =~= agent_map_of(olds).remove(a));
}

} // verus!
