//! The keyframe store: a sparse, ordered cache from tick to keyframe that
//! only ever grows.

use crate::server::error::EngineError;
use crate::server::keyframe::{ids_increasing, AgentState, Keyframe};
use vstd::prelude::*;

verus! {

/// A discrete simulation step.
pub type TimeIndex = usize;

/// What a store holds: the keyframe cached at each tick that has one.
pub type History = Map<TimeIndex, Seq<AgentState>>;

/// `history` holds no keyframe at all.
pub open spec fn is_vacant(history: History) -> bool {
    forall|t: TimeIndex| !history.contains_key(t)
}

/// `history` holds a keyframe at or before `target`.
pub open spec fn has_anchor(history: History, target: TimeIndex) -> bool {
    exists|t: TimeIndex| #[trigger] history.contains_key(t) && t <= target
}

/// `time` is the nearest cached tick at or before `target`.
pub open spec fn is_anchor(history: History, target: TimeIndex, time: TimeIndex) -> bool {
    &&& history.contains_key(time)
    &&& time <= target
    &&& forall|u: TimeIndex| #[trigger] history.contains_key(u) && u <= target ==> u <= time
}

/// `time` is the last cached tick.
pub open spec fn is_latest(history: History, time: TimeIndex) -> bool {
    &&& history.contains_key(time)
    &&& forall|u: TimeIndex| #[trigger] history.contains_key(u) ==> u <= time
}

/// Every keyframe of `history` lists its agents in the order of their ids.
pub open spec fn keyframes_ordered(history: History) -> bool {
    forall|t: TimeIndex| #[trigger] history.contains_key(t) ==> ids_increasing(history[t])
}

/// `later` holds everything that `earlier` holds, unchanged.
pub open spec fn extends(later: History, earlier: History) -> bool {
    forall|t: TimeIndex| #[trigger]
        earlier.contains_key(t) ==> later.contains_key(t) && later[t] == earlier[t]
}

/// One cached tick.
struct StoreEntry {
    time: TimeIndex,
    keyframe: Keyframe,
}

/// The cached ticks in the order in which they are stored.
type Timeline = Seq<(TimeIndex, Seq<AgentState>)>;

spec fn times_increasing(line: Timeline) -> bool {
    forall|i: int, j: int| 0 <= i < j < line.len() ==> line[i].0 < line[j].0
}

spec fn holds_time(line: Timeline, time: TimeIndex) -> bool {
    exists|i: int| 0 <= i < line.len() && #[trigger] line[i].0 == time
}

spec fn history_of(line: Timeline) -> History {
    Map::new(
        |t: TimeIndex| holds_time(line, t),
        |t: TimeIndex| line[choose|i: int| 0 <= i < line.len() && #[trigger] line[i].0 == t].1,
    )
}

proof fn lemma_history_entry(line: Timeline, i: int)
    requires
        times_increasing(line),
        0 <= i < line.len(),
    ensures
        history_of(line).contains_key(line[i].0),
        history_of(line)[line[i].0] == line[i].1,
{
    let t = line[i].0;
    assert(holds_time(line, t));
    let j = choose|j: int| 0 <= j < line.len() && #[trigger] line[j].0 == t;
    assert(j == i) by {
        if j < i {
            assert(line[j].0 < line[i].0);
        }
        if i < j {
            assert(line[i].0 < line[j].0);
        }
    }
}

proof fn lemma_history_insert(
    before: Timeline,
    after: Timeline,
    n: int,
    time: TimeIndex,
    keyframe: Seq<AgentState>,
)
    requires
        times_increasing(before),
        times_increasing(after),
        0 <= n <= before.len(),
        after == before.insert(n, (time, keyframe)),
    ensures
        history_of(after) == history_of(before).insert(time, keyframe),
{
    let target = history_of(before).insert(time, keyframe);
    assert forall|t: TimeIndex| history_of(after).contains_key(t) implies target.contains_key(
        t,
    ) by {
        let i = choose|i: int| 0 <= i < after.len() && #[trigger] after[i].0 == t;
        if i < n {
            assert(before[i].0 == t);
        } else if i > n {
            assert(before[i - 1].0 == t);
        }
    }
    assert forall|t: TimeIndex| target.contains_key(t) implies history_of(after).contains_key(
        t,
    ) by {
        if t == time {
            assert(after[n].0 == t);
        } else {
            let i = choose|i: int| 0 <= i < before.len() && #[trigger] before[i].0 == t;
            if i < n {
                assert(after[i].0 == t);
            } else {
                assert(after[i + 1].0 == t);
            }
        }
    }
    assert forall|t: TimeIndex| history_of(after).contains_key(t) implies history_of(after)[t]
        == target[t] by {
        let i = choose|i: int| 0 <= i < after.len() && #[trigger] after[i].0 == t;
        lemma_history_entry(after, i);
        if i < n {
            assert(after[i].0 < after[n].0);
            lemma_history_entry(before, i);
        } else if i > n {
            assert(after[n].0 < after[i].0);
            lemma_history_entry(before, i - 1);
        }
    }
    assert(history_of(after) =~= target);
}

/// An ordered, sparse cache from tick to keyframe.
///
/// Entries are only ever added. No entry is removed, and none is replaced by
/// a different keyframe, so whatever was computed for a tick once is what the
/// store answers for that tick from then on.
pub struct KeyframeStore {
    entries: Vec<StoreEntry>,
}

impl View for KeyframeStore {
    type V = History;

    closed spec fn view(&self) -> History {
        history_of(self.timeline())
    }
}

impl KeyframeStore {
    closed spec fn timeline(&self) -> Timeline {
        Seq::new(
            self.entries@.len(),
            |i: int| (self.entries@[i].time, self.entries@[i].keyframe@),
        )
    }

    /// The ticks are stored in strictly increasing order and every keyframe is
    /// well formed.
    pub closed spec fn wf(&self) -> bool {
        &&& times_increasing(self.timeline())
        &&& forall|i: int| 0 <= i < self.entries@.len() ==> self.entries@[i].keyframe.wf()
    }

    /// Every keyframe of a well-formed store lists its agents in the order of
    /// their ids.
    pub proof fn lemma_keyframes_ordered(&self)
        requires
            self.wf(),
        ensures
            keyframes_ordered(self@),
    {
        let line = self.timeline();
        assert forall|t: TimeIndex| #[trigger] self@.contains_key(t) implies ids_increasing(
            self@[t],
        ) by {
            let i = choose|i: int| 0 <= i < line.len() && #[trigger] line[i].0 == t;
            lemma_history_entry(line, i);
            assert(self.entries@[i].keyframe.wf());
        }
    }

    /// A store without history.
    pub fn new() -> (store: KeyframeStore)
        ensures
            store.wf(),
            is_vacant(store@),
    {
        let store = KeyframeStore { entries: Vec::new() };
        assert(store.timeline().len() == 0);
        store
    }

    /// Whether the store holds no keyframe at all.
    pub fn is_empty(&self) -> (empty: bool)
        requires
            self.wf(),
        ensures
            empty == is_vacant(self@),
    {
        proof {
            if self.entries@.len() > 0 {
                lemma_history_entry(self.timeline(), 0);
            }
        }
        self.entries.len() == 0
    }

    /// The number of entries whose tick is at most `target`.
    fn rank(&self, target: TimeIndex) -> (n: usize)
        requires
            self.wf(),
        ensures
            n <= self.entries@.len(),
            forall|i: int| 0 <= i < n ==> self.entries@[i].time <= target,
            forall|i: int| n <= i < self.entries@.len() ==> self.entries@[i].time > target,
    {
        let mut lo: usize = 0;
        let mut hi: usize = self.entries.len();
        while lo < hi
            invariant
                self.wf(),
                lo <= hi <= self.entries.len(),
                forall|i: int| 0 <= i < lo ==> self.entries@[i].time <= target,
                forall|i: int| hi <= i < self.entries@.len() ==> self.entries@[i].time > target,
            decreases hi - lo,
        {
            let mid: usize = lo + (hi - lo) / 2;
            let ghost line = self.timeline();
            if self.entries[mid].time <= target {
                assert forall|i: int| 0 <= i < mid + 1 implies self.entries@[i].time
                    <= target by {
                    if i < mid {
                        assert(line[i].0 < line[mid as int].0);
                    }
                }
                lo = mid + 1;
            } else {
                assert forall|i: int| mid <= i < self.entries@.len() implies self.entries@[i].time
                    > target by {
                    if mid < i {
                        assert(line[mid as int].0 < line[i].0);
                    }
                }
                hi = mid;
            }
        }
        lo
    }

    /// Seeds an empty store with its first keyframe.
    ///
    /// A store that already holds history is left as it is; further seeds are
    /// added with [`KeyframeStore::insert`].
    pub fn bootstrap(&mut self, time: TimeIndex, keyframe: Keyframe) -> (done: Result<
        (),
        EngineError,
    >)
        requires
            old(self).wf(),
            keyframe.wf(),
        ensures
            final(self).wf(),
            extends(final(self)@, old(self)@),
            match done {
                Ok(_) => is_vacant(old(self)@) && final(self)@ == old(self)@.insert(
                    time,
                    keyframe@,
                ),
                Err(e) => e == EngineError::AlreadyBootstrapped && !is_vacant(old(self)@)
                    && final(self)@ == old(self)@,
            },
    {
        if self.is_empty() {
            self.insert(time, keyframe)
        } else {
            Err(EngineError::AlreadyBootstrapped)
        }
    }

    /// The entry with the greatest tick at or before `target`.
    pub fn closest_at_or_before(&self, target: TimeIndex) -> (found: Result<
        (TimeIndex, &Keyframe),
        EngineError,
    >)
        requires
            self.wf(),
        ensures
            match found {
                Ok((time, keyframe)) => is_anchor(self@, target, time) && keyframe@ == self@[time]
                    && keyframe.wf(),
                Err(e) => e == EngineError::NoAnchor && !has_anchor(self@, target),
            },
    {
        let n = self.rank(target);
        let ghost line = self.timeline();
        if n == 0 {
            proof {
                assert forall|t: TimeIndex| #[trigger] self@.contains_key(t) implies t
                    > target by {
                    let i = choose|i: int| 0 <= i < line.len() && #[trigger] line[i].0 == t;
                    assert(self.entries@[i].time > target);
                }
            }
            Err(EngineError::NoAnchor)
        } else {
            let entry = &self.entries[n - 1];
            proof {
                lemma_history_entry(line, n - 1);
                assert forall|u: TimeIndex| #[trigger]
                    self@.contains_key(u) && u <= target implies u <= entry.time by {
                    let i = choose|i: int| 0 <= i < line.len() && #[trigger] line[i].0 == u;
                    if i > n - 1 {
                        assert(self.entries@[i].time > target);
                    } else if i < n - 1 {
                        assert(line[i].0 < line[n - 1].0);
                    }
                }
            }
            Ok((entry.time, &entry.keyframe))
        }
    }

    /// Caches `keyframe` at `time`.
    ///
    /// Offering the keyframe that is already cached at `time` changes nothing;
    /// offering a different one is declined, and the store keeps what it had.
    pub fn insert(&mut self, time: TimeIndex, keyframe: Keyframe) -> (done: Result<
        (),
        EngineError,
    >)
        requires
            old(self).wf(),
            keyframe.wf(),
        ensures
            final(self).wf(),
            extends(final(self)@, old(self)@),
            match done {
                Ok(_) => (old(self)@.contains_key(time) ==> old(self)@[time] == keyframe@)
                    && final(self)@ == old(self)@.insert(time, keyframe@),
                Err(e) => e == EngineError::NonMonotonicInsert && old(self)@.contains_key(time)
                    && old(self)@[time] != keyframe@ && final(self)@ == old(self)@,
            },
    {
        let n = self.rank(time);
        let ghost before = self.timeline();
        if n > 0 && self.entries[n - 1].time == time {
            proof {
                lemma_history_entry(before, n - 1);
            }
            if self.entries[n - 1].keyframe.same_as(&keyframe) {
                assert(self@ =~= self@.insert(time, keyframe@));
                Ok(())
            } else {
                Err(EngineError::NonMonotonicInsert)
            }
        } else {
            proof {
                if holds_time(before, time) {
                    let i = choose|i: int| 0 <= i < before.len() && #[trigger] before[i].0 == time;
                    if i < n - 1 {
                        assert(before[i].0 < before[n - 1].0);
                    }
                    assert(self.entries@[i].time == time);
                }
            }
            let ghost view = keyframe@;
            self.entries.insert(n, StoreEntry { time, keyframe });
            proof {
                let after = self.timeline();
                assert(after =~= before.insert(n as int, (time, view)));
                assert forall|i: int, j: int| 0 <= i < j < after.len() implies after[i].0
                    < after[j].0 by {
                    let bi = if i < n { i } else { i - 1 };
                    let bj = if j < n { j } else { j - 1 };
                    if i != n && j != n {
                        assert(before[bi].0 < before[bj].0);
                    } else if i == n {
                        assert(old(self).entries@[bj].time > time);
                    } else {
                        assert(old(self).entries@[bi].time <= time);
                        if bi < n - 1 {
                            assert(before[bi].0 < before[n - 1].0);
                        }
                    }
                }
                lemma_history_insert(before, after, n as int, time, view);
            }
            Ok(())
        }
    }

    /// The keyframe cached at exactly `time`.
    pub fn get(&self, time: TimeIndex) -> (found: Result<&Keyframe, EngineError>)
        requires
            self.wf(),
        ensures
            match found {
                Ok(keyframe) => self@.contains_key(time) && keyframe@ == self@[time]
                    && keyframe.wf(),
                Err(e) => e == EngineError::NotFound && !self@.contains_key(time),
            },
    {
        match self.closest_at_or_before(time) {
            Ok((t, keyframe)) => {
                if t == time {
                    Ok(keyframe)
                } else {
                    Err(EngineError::NotFound)
                }
            },
            Err(_) => Err(EngineError::NotFound),
        }
    }

    /// The last cached tick.
    pub fn latest(&self) -> (last: Option<TimeIndex>)
        requires
            self.wf(),
        ensures
            match last {
                Some(time) => is_latest(self@, time),
                None => is_vacant(self@),
            },
    {
        let n = self.entries.len();
        let ghost line = self.timeline();
        if n == 0 {
            None
        } else {
            proof {
                lemma_history_entry(line, n - 1);
                assert forall|u: TimeIndex| #[trigger] self@.contains_key(u) implies u
                    <= line[n - 1].0 by {
                    let i = choose|i: int| 0 <= i < line.len() && #[trigger] line[i].0 == u;
                    if i < n - 1 {
                        assert(line[i].0 < line[n - 1].0);
                    }
                }
            }
            Some(self.entries[n - 1].time)
        }
    }

    /// All cached ticks, in increasing order.
    pub fn ticks(&self) -> (times: Vec<TimeIndex>)
        requires
            self.wf(),
        ensures
            forall|i: int, j: int| 0 <= i < j < times@.len() ==> times@[i] < times@[j],
            forall|t: TimeIndex| times@.contains(t) <==> self@.contains_key(t),
    {
        let mut times: Vec<TimeIndex> = Vec::with_capacity(self.entries.len());
        let ghost line = self.timeline();
        let mut k: usize = 0;
        while k < self.entries.len()
            invariant
                k <= self.entries.len(),
                line == self.timeline(),
                times@.len() == k,
                forall|i: int| 0 <= i < k ==> times@[i] == line[i].0,
            decreases self.entries.len() - k,
        {
            times.push(self.entries[k].time);
            k += 1;
        }
        proof {
            assert forall|i: int, j: int| 0 <= i < j < times@.len() implies times@[i]
                < times@[j] by {
                assert(line[i].0 < line[j].0);
            }
            assert forall|t: TimeIndex| times@.contains(t) implies self@.contains_key(t) by {
                let i = choose|i: int| 0 <= i < times@.len() && times@[i] == t;
                assert(line[i].0 == t);
            }
            assert forall|t: TimeIndex| self@.contains_key(t) implies times@.contains(t) by {
                let i = choose|i: int| 0 <= i < line.len() && #[trigger] line[i].0 == t;
                assert(times@[i] == t);
            }
        }
        times
    }
}

} // verus!
