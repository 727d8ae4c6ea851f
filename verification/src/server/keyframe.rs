//! Keyframes: the placement of every agent at one tick.

use vstd::prelude::*;

verus! {

/// A cell of the world grid, as `(x, y)`.
pub type Coordinates = (i64, i64);

/// A heading, counted in fixed angular units.
pub type Orientation = i64;

/// The handle of an agent: its index in the agent table.
pub type ID = usize;

/// Where one agent stands and which way it faces.
#[derive(Clone, Copy, Debug, PartialEq, Eq)]
pub struct AgentState {
    pub id: ID,
    pub location: Coordinates,
    pub orientation: Orientation,
}

/// The ids of `s` grow strictly from each entry to the next.
pub open spec fn ids_increasing(s: Seq<AgentState>) -> bool {
    forall|i: int, j: int| 0 <= i < j < s.len() ==> s[i].id < s[j].id
}

/// `s` holds an entry for `id`.
pub open spec fn holds_id(s: Seq<AgentState>, id: ID) -> bool {
    exists|i: int| 0 <= i < s.len() && #[trigger] s[i].id == id
}

/// The entries of `s` read as a mapping from agent id to placement.
pub open spec fn placements(s: Seq<AgentState>) -> Map<ID, (Coordinates, Orientation)> {
    Map::new(
        |id: ID| holds_id(s, id),
        |id: ID|
            {
                let i = choose|i: int| 0 <= i < s.len() && #[trigger] s[i].id == id;
                (s[i].location, s[i].orientation)
            },
    )
}

/// In a sequence with increasing ids every entry is found under its own id.
pub proof fn lemma_placements_entry(s: Seq<AgentState>, i: int)
    requires
        ids_increasing(s),
        0 <= i < s.len(),
    ensures
        placements(s).contains_key(s[i].id),
        placements(s)[s[i].id] == (s[i].location, s[i].orientation),
{
    let id = s[i].id;
    assert(holds_id(s, id));
    let j = choose|j: int| 0 <= j < s.len() && #[trigger] s[j].id == id;
    assert(j == i) by {
        if j < i {
            assert(s[j].id < s[i].id);
        }
        if i < j {
            assert(s[i].id < s[j].id);
        }
    }
}

/// Insertion order is irrelevant: two sequences with increasing ids that hold
/// the same placements are the same sequence.
pub proof fn lemma_placements_canonical(a: Seq<AgentState>, b: Seq<AgentState>)
    requires
        ids_increasing(a),
        ids_increasing(b),
        placements(a) == placements(b),
    ensures
        a == b,
    decreases a.len(),
{
    if a.len() == 0 {
        if b.len() > 0 {
            lemma_placements_entry(b, 0);
            assert(holds_id(a, b[0].id));
        }
        assert(a =~= b);
    } else {
        let la = a.len() - 1;
        lemma_placements_entry(a, la);
        assert(holds_id(b, a[la].id));
        let lb = b.len() - 1;
        lemma_placements_entry(b, lb);
        assert(holds_id(a, b[lb].id));
        let jb = choose|j: int| 0 <= j < b.len() && #[trigger] b[j].id == a[la].id;
        let ja = choose|j: int| 0 <= j < a.len() && #[trigger] a[j].id == b[lb].id;
        assert(a[la].id == b[lb].id) by {
            if jb < lb {
                assert(b[jb].id < b[lb].id);
            }
            if ja < la {
                assert(a[ja].id < a[la].id);
            }
        }
        assert(a[la] == b[lb]);
        let a0 = a.drop_last();
        let b0 = b.drop_last();
        assert(placements(a0) =~= placements(b0)) by {
            assert forall|id: ID| holds_id(a0, id) implies holds_id(b0, id) by {
                let i = choose|i: int| 0 <= i < a0.len() && #[trigger] a0[i].id == id;
                assert(a[i].id < a[la].id);
                lemma_placements_entry(a, i);
                assert(holds_id(b, id));
                let j = choose|j: int| 0 <= j < b.len() && #[trigger] b[j].id == id;
                assert(b0[j].id == id);
            }
            assert forall|id: ID| holds_id(b0, id) implies holds_id(a0, id) by {
                let i = choose|i: int| 0 <= i < b0.len() && #[trigger] b0[i].id == id;
                assert(b[i].id < b[lb].id);
                lemma_placements_entry(b, i);
                assert(holds_id(a, id));
                let j = choose|j: int| 0 <= j < a.len() && #[trigger] a[j].id == id;
                assert(a0[j].id == id);
            }
            assert forall|id: ID| holds_id(a0, id) implies placements(a0)[id] == placements(
                b0,
            )[id] by {
                let i = choose|i: int| 0 <= i < a0.len() && #[trigger] a0[i].id == id;
                let j = choose|j: int| 0 <= j < b0.len() && #[trigger] b0[j].id == id;
                lemma_placements_entry(a0, i);
                lemma_placements_entry(b0, j);
                lemma_placements_entry(a, i);
                lemma_placements_entry(b, j);
            }
        }
        lemma_placements_canonical(a0, b0);
        assert(a =~= a0.push(a[la]));
        assert(b =~= b0.push(b[lb]));
    }
}

/// A snapshot of the world at one tick: one entry per agent, kept in the
/// order of the agents' ids.
#[derive(Debug)]
pub struct Keyframe {
    entries: Vec<AgentState>,
}

impl View for Keyframe {
    type V = Seq<AgentState>;

    closed spec fn view(&self) -> Seq<AgentState> {
        self.entries@
    }
}

impl Clone for Keyframe {
    fn clone(&self) -> (copy: Keyframe)
        ensures
            copy@ == self@,
    {
        let mut entries: Vec<AgentState> = Vec::with_capacity(self.entries.len());
        let mut i: usize = 0;
        while i < self.entries.len()
            invariant
                i <= self.entries.len(),
                entries@ == self.entries@.take(i as int),
            decreases self.entries.len() - i,
        {
            entries.push(self.entries[i]);
            i += 1;
            assert(self.entries@.take(i as int) =~= self.entries@.take(i - 1).push(
                self.entries@[i - 1],
            ));
        }
        assert(self.entries@.take(i as int) =~= self.entries@);
        Keyframe { entries }
    }
}

impl Keyframe {
    /// No agent occurs twice, and the entries are in the order of their ids.
    pub open spec fn wf(&self) -> bool {
        ids_increasing(self@)
    }

    /// The snapshot as a mapping from agent id to placement.
    pub open spec fn placements(&self) -> Map<ID, (Coordinates, Orientation)> {
        placements(self@)
    }

    /// The snapshot of a world without agents.
    pub fn new() -> (keyframe: Keyframe)
        ensures
            keyframe@ == Seq::<AgentState>::empty(),
            keyframe.wf(),
    {
        Keyframe { entries: Vec::new() }
    }

    /// The number of agents in the snapshot.
    pub fn len(&self) -> (n: usize)
        ensures
            n == self@.len(),
    {
        self.entries.len()
    }

    /// The entry at `index`, counting in the order of the ids.
    pub fn entry(&self, index: usize) -> (state: Option<AgentState>)
        ensures
            state == if index < self@.len() {
                Some(self@[index as int])
            } else {
                None
            },
    {
        if index < self.entries.len() {
            Some(self.entries[index])
        } else {
            None
        }
    }

    /// The number of entries whose id is below `id`.
    fn rank(&self, id: ID) -> (n: usize)
        requires
            self.wf(),
        ensures
            n <= self@.len(),
            forall|i: int| 0 <= i < n ==> self@[i].id < id,
            forall|i: int| n <= i < self@.len() ==> self@[i].id >= id,
    {
        let mut lo: usize = 0;
        let mut hi: usize = self.entries.len();
        while lo < hi
            invariant
                self.wf(),
                lo <= hi <= self.entries.len(),
                forall|i: int| 0 <= i < lo ==> self@[i].id < id,
                forall|i: int| hi <= i < self@.len() ==> self@[i].id >= id,
            decreases hi - lo,
        {
            let mid: usize = lo + (hi - lo) / 2;
            if self.entries[mid].id < id {
                assert forall|i: int| 0 <= i < mid + 1 implies self@[i].id < id by {
                    if i < mid {
                        assert(self@[i].id < self@[mid as int].id);
                    }
                }
                lo = mid + 1;
            } else {
                assert forall|i: int| mid <= i < self@.len() implies self@[i].id >= id by {
                    if mid < i {
                        assert(self@[mid as int].id < self@[i].id);
                    }
                }
                hi = mid;
            }
        }
        lo
    }

    /// The placement of agent `id`, if the snapshot holds one.
    pub fn get(&self, id: ID) -> (placement: Option<(Coordinates, Orientation)>)
        requires
            self.wf(),
        ensures
            placement == if self.placements().contains_key(id) {
                Some(self.placements()[id])
            } else {
                None
            },
    {
        let n = self.rank(id);
        if n < self.entries.len() && self.entries[n].id == id {
            proof {
                lemma_placements_entry(self@, n as int);
            }
            let state = self.entries[n];
            Some((state.location, state.orientation))
        } else {
            proof {
                if holds_id(self@, id) {
                    let i = choose|i: int| 0 <= i < self@.len() && #[trigger] self@[i].id == id;
                    if i > n {
                        assert(self@[n as int].id < self@[i].id);
                    }
                }
            }
            None
        }
    }

    /// Records the placement of agent `id`, in place of an earlier one if the
    /// snapshot already held the agent.
    pub fn set(&mut self, id: ID, location: Coordinates, orientation: Orientation)
        requires
            old(self).wf(),
        ensures
            final(self).wf(),
            final(self).placements() == old(self).placements().insert(id, (location, orientation)),
    {
        let n = self.rank(id);
        let state = AgentState { id, location, orientation };
        let ghost before = self@;
        if n < self.entries.len() && self.entries[n].id == id {
            self.entries.set(n, state);
            proof {
                let after = self@;
                assert(after == before.update(n as int, state));
                assert(ids_increasing(after)) by {
                    assert forall|i: int, j: int| 0 <= i < j < after.len() implies after[i].id
                        < after[j].id by {
                        assert(before[i].id < before[j].id);
                    }
                }
                lemma_set_placements(before, after, n as int, state);
            }
        } else {
            self.entries.insert(n, state);
            proof {
                let after = self@;
                assert(after == before.insert(n as int, state));
                assert(ids_increasing(after)) by {
                    assert forall|i: int, j: int| 0 <= i < j < after.len() implies after[i].id
                        < after[j].id by {
                        let bi = if i < n { i } else { i - 1 };
                        let bj = if j < n { j } else { j - 1 };
                        if i != n && j != n {
                            assert(before[bi].id < before[bj].id);
                        }
                    }
                }
                lemma_insert_placements(before, after, n as int, state);
            }
        }
    }

    /// Adds an agent whose id lies above every id of the snapshot.
    pub(crate) fn append(&mut self, state: AgentState)
        requires
            old(self).wf(),
            old(self)@.len() > 0 ==> old(self)@.last().id < state.id,
        ensures
            final(self).wf(),
            final(self)@ == old(self)@.push(state),
    {
        let ghost before = self@;
        self.entries.push(state);
        proof {
            assert forall|i: int, j: int| 0 <= i < j < self@.len() implies self@[i].id
                < self@[j].id by {
                if j == before.len() {
                    if i < before.len() - 1 {
                        assert(before[i].id < before[before.len() - 1].id);
                    }
                } else {
                    assert(before[i].id < before[j].id);
                }
            }
        }
    }

    /// Whether two snapshots place the same agents in the same way.
    pub fn same_as(&self, other: &Keyframe) -> (same: bool)
        ensures
            same == (self@ == other@),
    {
        if self.entries.len() != other.entries.len() {
            return false;
        }
        let mut i: usize = 0;
        while i < self.entries.len()
            invariant
                i <= self.entries.len(),
                self.entries.len() == other.entries.len(),
                forall|k: int| 0 <= k < i ==> self@[k] == other@[k],
            decreases self.entries.len() - i,
        {
            let a = self.entries[i];
            let b = other.entries[i];
            if a.id != b.id || a.location.0 != b.location.0 || a.location.1 != b.location.1
                || a.orientation != b.orientation {
                assert(self@[i as int] != other@[i as int]);
                return false;
            }
            i += 1;
        }
        assert(self@ =~= other@);
        true
    }
}

/// Replacing the entry of an agent replaces its placement and no other.
proof fn lemma_set_placements(
    before: Seq<AgentState>,
    after: Seq<AgentState>,
    n: int,
    state: AgentState,
)
    requires
        ids_increasing(before),
        ids_increasing(after),
        0 <= n < before.len(),
        before[n].id == state.id,
        after == before.update(n, state),
    ensures
        placements(after) == placements(before).insert(
            state.id,
            (state.location, state.orientation),
        ),
{
    let target = placements(before).insert(state.id, (state.location, state.orientation));
    assert forall|id: ID| placements(after).contains_key(id) implies target.contains_key(id) by {
        let i = choose|i: int| 0 <= i < after.len() && #[trigger] after[i].id == id;
        assert(before[i].id == id);
    }
    assert forall|id: ID| target.contains_key(id) implies placements(after).contains_key(id) by {
        if id == state.id {
            assert(after[n].id == id);
        } else {
            let i = choose|i: int| 0 <= i < before.len() && #[trigger] before[i].id == id;
            assert(after[i].id == id);
        }
    }
    assert forall|id: ID| placements(after).contains_key(id) implies placements(after)[id]
        == target[id] by {
        let i = choose|i: int| 0 <= i < after.len() && #[trigger] after[i].id == id;
        lemma_placements_entry(after, i);
        if i != n {
            lemma_placements_entry(before, i);
        }
    }
    assert(placements(after) =~= target);
}

/// Inserting the entry of a new agent adds its placement and changes no other.
proof fn lemma_insert_placements(
    before: Seq<AgentState>,
    after: Seq<AgentState>,
    n: int,
    state: AgentState,
)
    requires
        ids_increasing(before),
        ids_increasing(after),
        0 <= n <= before.len(),
        after == before.insert(n, state),
    ensures
        placements(after) == placements(before).insert(
            state.id,
            (state.location, state.orientation),
        ),
{
    let target = placements(before).insert(state.id, (state.location, state.orientation));
    assert forall|id: ID| placements(after).contains_key(id) implies target.contains_key(id) by {
        let i = choose|i: int| 0 <= i < after.len() && #[trigger] after[i].id == id;
        if i < n {
            assert(before[i].id == id);
        } else if i > n {
            assert(before[i - 1].id == id);
        }
    }
    assert forall|id: ID| target.contains_key(id) implies placements(after).contains_key(id) by {
        if id == state.id {
            assert(after[n].id == id);
        } else {
            let i = choose|i: int| 0 <= i < before.len() && #[trigger] before[i].id == id;
            if i < n {
                assert(after[i].id == id);
            } else {
                assert(after[i + 1].id == id);
            }
        }
    }
    assert forall|id: ID| placements(after).contains_key(id) implies placements(after)[id]
        == target[id] by {
        let i = choose|i: int| 0 <= i < after.len() && #[trigger] after[i].id == id;
        lemma_placements_entry(after, i);
        if i < n {
            assert(after[i].id < after[n].id);
            lemma_placements_entry(before, i);
        } else if i > n {
            assert(after[n].id < after[i].id);
            lemma_placements_entry(before, i - 1);
        }
    }
    assert(placements(after) =~= target);
}

} // verus!
