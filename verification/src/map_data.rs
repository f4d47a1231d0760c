//! Static map data the engine reads: for every turn its parent intersection,
//! its physical length, its stop-sign priority category and its conflict
//! relation, and for every intersection whether it carries a traffic signal.
//!
//! The surrounding simulation builds one `MapModel` from its map when it loads;
//! the engine only ever reads it.

use crate::ids::TurnID;
use vstd::prelude::*;

verus! {

/// Stop-sign right-of-way category of a turn. `Stop` is the lowest and
/// requires a mandatory dwell before admission.
#[derive(Clone, Copy, PartialEq, Eq, Structural, Debug)]
pub enum TurnPriority {
    Stop,
    Yield,
    Priority,
}

/// Rank of a priority category; a greater rank means right of way first.
pub open spec fn rank(p: TurnPriority) -> int {
    match p {
        TurnPriority::Stop => 0,
        TurnPriority::Yield => 1,
        TurnPriority::Priority => 2,
    }
}

/// Executable comparison deciding `rank(a) > rank(b)`.
pub fn priority_gt(a: TurnPriority, b: TurnPriority) -> (r: bool)
    ensures
        r == (rank(a) > rank(b)),
{
    match (a, b) {
        (TurnPriority::Yield, TurnPriority::Stop) => true,
        (TurnPriority::Priority, TurnPriority::Stop) => true,
        (TurnPriority::Priority, TurnPriority::Yield) => true,
        _ => false,
    }
}

/// The static map data, indexed by turn number and intersection number.
/// All tables over turns have one entry per turn; `conflict` is a square,
/// symmetric matrix over turns.
pub struct MapModel {
    pub turn_parent: Vec<usize>,
    pub turn_length: Vec<u64>,
    pub turn_priority: Vec<TurnPriority>,
    pub conflict: Vec<Vec<bool>>,
    pub has_signal: Vec<bool>,
}

impl MapModel {
    /// Number of turns in the map.
    pub open spec fn n_turns(self) -> int {
        self.turn_parent@.len() as int
    }

    /// Number of intersections in the map.
    pub open spec fn n_ints(self) -> int {
        self.has_signal@.len() as int
    }

    /// Parent intersection of turn `t`.
    pub open spec fn parent_of(self, t: int) -> int {
        self.turn_parent@[t] as int
    }

    /// Physical length of turn `t`, in tenths of a meter.
    pub open spec fn length_of(self, t: int) -> u64 {
        self.turn_length@[t]
    }

    /// Stop-sign priority category of turn `t`.
    pub open spec fn priority_of(self, t: int) -> TurnPriority {
        self.turn_priority@[t]
    }

    /// Whether turns `a` and `b` cannot be executed simultaneously.
    pub open spec fn conflicts(self, a: int, b: int) -> bool {
        self.conflict@[a]@[b]
    }

    /// Whether intersection `i` is governed by a traffic signal.
    pub open spec fn signalized(self, i: int) -> bool {
        self.has_signal@[i]
    }

    /// The tables are consistent: one entry per turn in each turn table, a
    /// square symmetric conflict matrix, and every parent in range.
    pub open spec fn wf(self) -> bool {
        &&& self.turn_length@.len() == self.n_turns()
        &&& self.turn_priority@.len() == self.n_turns()
        &&& self.conflict@.len() == self.n_turns()
        &&& forall|t: int| 0 <= t < self.n_turns() ==> (#[trigger] self.conflict@[t])@.len() == self.n_turns()
        &&& forall|a: int, b: int|
            0 <= a < self.n_turns() && 0 <= b < self.n_turns()
                ==> #[trigger] self.conflicts(a, b) == self.conflicts(b, a)
        &&& forall|t: int| 0 <= t < self.n_turns() ==> 0 <= #[trigger] self.parent_of(t) < self.n_ints()
    }

    /// Builds a map model, validating the shape of the tables.
    /// Malformed data is rejected at construction; the engine's functions
    /// then only ever see a well-formed model.
    #[verifier::loop_isolation(false)]
    pub fn new(
        turn_parent: Vec<usize>,
        turn_length: Vec<u64>,
        turn_priority: Vec<TurnPriority>,
        conflict: Vec<Vec<bool>>,
        has_signal: Vec<bool>,
    ) -> (r: Option<MapModel>)
        ensures
            match r {
                Some(m) => m == (MapModel { turn_parent, turn_length, turn_priority, conflict, has_signal })
                    && m.wf(),
                None => !(MapModel { turn_parent, turn_length, turn_priority, conflict, has_signal }).wf(),
            },
    {
        let m = MapModel { turn_parent, turn_length, turn_priority, conflict, has_signal };
        let n = m.turn_parent.len();
        if m.turn_length.len() != n || m.turn_priority.len() != n || m.conflict.len() != n {
            return None;
        }
        let mut t: usize = 0;
        while t < n
            invariant
                n == m.n_turns(),
                m.conflict@.len() == n,
                t <= n,
                forall|u: int| 0 <= u < t ==> (#[trigger] m.conflict@[u])@.len() == n,
                forall|u: int| 0 <= u < t ==> 0 <= #[trigger] m.parent_of(u) < m.n_ints(),
            decreases n - t,
        {
            if m.conflict[t].len() != n {
                return None;
            }
            if m.turn_parent[t] >= m.has_signal.len() {
                assert(m.parent_of(t as int) >= m.n_ints());
                return None;
            }
            t = t + 1;
        }
        let mut a: usize = 0;
        while a < n
            invariant
                n == m.n_turns(),
                m.conflict@.len() == n,
                a <= n,
                forall|u: int| 0 <= u < n ==> (#[trigger] m.conflict@[u])@.len() == n,
                forall|x: int, y: int|
                    0 <= x < a && 0 <= y < n ==> #[trigger] m.conflicts(x, y) == m.conflicts(y, x),
            decreases n - a,
        {
            let mut b: usize = 0;
            while b < n
                invariant
                    n == m.n_turns(),
                    m.conflict@.len() == n,
                    a < n,
                    b <= n,
                    forall|u: int| 0 <= u < n ==> (#[trigger] m.conflict@[u])@.len() == n,
                    forall|x: int, y: int|
                        0 <= x < a && 0 <= y < n ==> #[trigger] m.conflicts(x, y) == m.conflicts(y, x),
                    forall|y: int| 0 <= y < b ==> #[trigger] m.conflicts(a as int, y) == m.conflicts(y, a as int),
                decreases n - b,
            {
                if m.conflict[a][b] != m.conflict[b][a] {
                    assert(m.conflicts(a as int, b as int) != m.conflicts(b as int, a as int));
                    return None;
                }
                b = b + 1;
            }
            a = a + 1;
        }
        Some(m)
    }

    /// Number of turns.
    pub fn num_turns(&self) -> (r: usize)
        ensures
            r == self.n_turns(),
    {
        self.turn_parent.len()
    }

    /// Number of intersections.
    pub fn num_intersections(&self) -> (r: usize)
        ensures
            r == self.n_ints(),
    {
        self.has_signal.len()
    }

    /// Parent intersection of a turn.
    pub fn parent(&self, t: TurnID) -> (r: usize)
        requires
            0 <= t.0 < self.n_turns(),
        ensures
            r == self.parent_of(t.0 as int),
    {
        self.turn_parent[t.0]
    }

    /// Physical length of a turn, in tenths of a meter.
    pub fn length(&self, t: TurnID) -> (r: u64)
        requires
            self.wf(),
            0 <= t.0 < self.n_turns(),
        ensures
            r == self.length_of(t.0 as int),
    {
        self.turn_length[t.0]
    }

    /// Stop-sign priority category of a turn.
    pub fn priority(&self, t: TurnID) -> (r: TurnPriority)
        requires
            self.wf(),
            0 <= t.0 < self.n_turns(),
        ensures
            r == self.priority_of(t.0 as int),
    {
        self.turn_priority[t.0]
    }

    /// Whether two turns conflict.
    pub fn conflicts_between(&self, a: TurnID, b: TurnID) -> (r: bool)
        requires
            self.wf(),
            0 <= a.0 < self.n_turns(),
            0 <= b.0 < self.n_turns(),
        ensures
            r == self.conflicts(a.0 as int, b.0 as int),
    {
        self.conflict[a.0][b.0]
    }

    /// Whether an intersection carries a traffic signal.
    pub fn is_signalized(&self, i: usize) -> (r: bool)
        requires
            0 <= i < self.n_ints(),
        ensures
            r == self.signalized(i as int),
    {
        self.has_signal[i]
    }
}

} // verus!
