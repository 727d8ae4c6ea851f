//! The game server: a deterministic, memoising simulation of the agents of a
//! world, and the portals that players open between two points of spacetime.

pub mod agent;
pub mod error;
pub mod keyframe;
pub mod laws;
pub mod portal;
pub mod stepper;
pub mod store;

use crate::server::agent::{rule_of, AIType, Player, Rule, RuleTable, AI};
use crate::server::error::EngineError;
use crate::server::keyframe::{AgentState, Coordinates, Keyframe, ID};
use crate::server::portal::{portal_between, Compression, Endpoint, Portal, Ratio};
use crate::server::stepper::{
    advanced, filled, lemma_anchor_unique, lemma_run_sticky, outcome, run, step_keyframe,
};
use crate::server::store::{
    has_anchor, is_anchor, is_vacant, keyframes_ordered, History, KeyframeStore, TimeIndex,
};
use vstd::prelude::*;

verus! {

/// The keyframe of a world that has not moved yet: every agent of the table
/// at its starting placement.
pub open spec fn initial_keyframe(agents: Seq<AI>) -> Seq<AgentState> {
    Seq::new(
        agents.len(),
        |i: int|
            AgentState {
                id: i as ID,
                location: agents[i].start_location,
                orientation: agents[i].start_orientation,
            },
    )
}

/// The history of a game that has just been started: the keyframe of tick 0
/// and no other.
pub open spec fn opening(agents: Seq<AI>) -> History {
    Map::<TimeIndex, Seq<AgentState>>::empty().insert(0, initial_keyframe(agents))
}

/// `server` has the rules of the game and nothing else: no agent, no
/// history, no portal.
pub open spec fn is_fresh(server: Server) -> bool {
    &&& server.wf()
    &&& server.agents().len() == 0
    &&& server.portal_list().len() == 0
    &&& is_vacant(server.history())
    &&& forall|variant: AIType|
        rule_of(server.rule_table(), variant) == if variant == AIType::Scout {
            Rule::Mover
        } else {
            Rule::Identity
        }
}

/// `after` is `before` with the game started: a server without history has
/// got the keyframe of tick 0, in which every registered agent stands at its
/// starting placement, and a server with history is as it was.
pub open spec fn started(before: Server, after: Server) -> bool {
    &&& after.wf()
    &&& after.agents() == before.agents()
    &&& after.rule_table() == before.rule_table()
    &&& after.portal_list() == before.portal_list()
    &&& after.history() == if is_vacant(before.history()) {
        opening(before.agents())
    } else {
        before.history()
    }
}

/// The authoritative state of one game: the agent table, the rules of the
/// behaviour variants, the cache of computed keyframes and the portals.
pub struct Server {
    portals: Vec<Portal>,
    keyframes: KeyframeStore,
    ais: Vec<AI>,
    rules: RuleTable,
}

impl Server {
    /// The agent table; an agent's id is its index.
    pub closed spec fn agents(&self) -> Seq<AI> {
        self.ais@
    }

    /// The movement rules, by behaviour variant.
    pub closed spec fn rule_table(&self) -> Seq<Rule> {
        self.rules@
    }

    /// The cached keyframes, by tick.
    pub closed spec fn history(&self) -> History {
        self.keyframes@
    }

    /// The portals, in the order of their creation.
    pub closed spec fn portal_list(&self) -> Seq<Portal> {
        self.portals@
    }

    /// The keyframe store and every portal are well formed.
    pub closed spec fn wf(&self) -> bool {
        &&& self.keyframes.wf()
        &&& forall|i: int| 0 <= i < self.portals@.len() ==> self.portals@[i].wf()
    }

    /// Every portal of a well-formed server is well formed.
    pub proof fn lemma_portals_wf(&self)
        requires
            self.wf(),
        ensures
            forall|i: int| 0 <= i < self.portal_list().len() ==> self.portal_list()[i].wf(),
    {
    }

    /// Every cached keyframe of a well-formed server lists its agents in the
    /// order of their ids.
    pub proof fn lemma_history_ordered(&self)
        requires
            self.wf(),
        ensures
            keyframes_ordered(self.history()),
    {
        self.keyframes.lemma_keyframes_ordered();
    }

    /// A server with the rules of the game and nothing else: no agent, no
    /// history, no portal.
    pub fn new() -> (server: Server)
        ensures
            is_fresh(server),
    {
        Server::with_rules(RuleTable::standard())
    }

    /// A server with rules of the caller's choice and nothing else.
    pub fn with_rules(rules: RuleTable) -> (server: Server)
        ensures
            server.wf(),
            server.agents().len() == 0,
            server.portal_list().len() == 0,
            is_vacant(server.history()),
            server.rule_table() == rules@,
    {
        Server { portals: Vec::new(), keyframes: KeyframeStore::new(), ais: Vec::new(), rules }
    }

    /// Registers an agent and returns the id it is known by from now on.
    pub fn add_ai(&mut self, ai: AI) -> (id: ID)
        requires
            old(self).wf(),
        ensures
            final(self).wf(),
            id == old(self).agents().len(),
            final(self).agents() == old(self).agents().push(ai),
            final(self).rule_table() == old(self).rule_table(),
            final(self).history() == old(self).history(),
            final(self).portal_list() == old(self).portal_list(),
    {
        let id = self.ais.len();
        self.ais.push(ai);
        id
    }

    /// Opens a portal for `player` and returns it.
    ///
    /// Each end is given as the tick and the place of its creation, together
    /// with its lifetime in ticks and its scale. A lifetime of zero is declined
    /// first, then a scale of zero or less; a declined portal leaves the server
    /// as it was. The tick at which an end expires, its tick of creation plus
    /// its lifetime, has to be a tick that `TimeIndex` can hold.
    pub fn create_portal(
        &mut self,
        player: Player,
        origin: (TimeIndex, Coordinates),
        origin_lifetime: TimeIndex,
        origin_scale: i64,
        dest: (TimeIndex, Coordinates),
        dest_lifetime: TimeIndex,
        dest_scale: i64,
    ) -> (created: Result<Portal, EngineError>)
        requires
            old(self).wf(),
            origin.0 + origin_lifetime <= usize::MAX,
            dest.0 + dest_lifetime <= usize::MAX,
        ensures
            final(self).wf(),
            final(self).agents() == old(self).agents(),
            final(self).rule_table() == old(self).rule_table(),
            final(self).history() == old(self).history(),
            created == if origin_lifetime == 0 || dest_lifetime == 0 {
                Err::<Portal, EngineError>(EngineError::InvalidLifetime)
            } else if origin_scale <= 0 || dest_scale <= 0 {
                Err::<Portal, EngineError>(EngineError::InvalidScale)
            } else {
                Ok::<Portal, EngineError>(
                    portal_between(
                        player,
                        origin,
                        origin_lifetime,
                        origin_scale,
                        dest,
                        dest_lifetime,
                        dest_scale,
                    ),
                )
            },
            match created {
                Ok(portal) => portal.wf() && final(self).portal_list() == old(
                    self,
                ).portal_list().push(portal),
                Err(_) => final(self).portal_list() == old(self).portal_list(),
            },
    {
        if origin_lifetime == 0 || dest_lifetime == 0 {
            return Err(EngineError::InvalidLifetime);
        }
        if origin_scale <= 0 || dest_scale <= 0 {
            return Err(EngineError::InvalidScale);
        }
        let origin = Endpoint {
            location: origin.1,
            creation: origin.0,
            expiration: origin.0 + origin_lifetime,
            scale: origin_scale,
        };
        let dest = Endpoint {
            location: dest.1,
            creation: dest.0,
            expiration: dest.0 + dest_lifetime,
            scale: dest_scale,
        };
        let portal = Portal {
            player,
            origin,
            dest,
            compression_factor: Compression {
                scale: Ratio { numerator: dest_scale as u64, denominator: origin_scale as u64 },
                duration: Ratio {
                    numerator: dest_lifetime as u64,
                    denominator: origin_lifetime as u64,
                },
            },
        };
        self.portals.push(portal);
        Ok(portal)
    }

    /// The portal that was created as the `index`-th, counting from zero.
    pub fn get_portal(&self, index: usize) -> (portal: Option<Portal>)
        ensures
            portal == if index < self.portal_list().len() {
                Some(self.portal_list()[index as int])
            } else {
                None
            },
    {
        if index < self.portals.len() {
            Some(self.portals[index])
        } else {
            None
        }
    }

    /// The definition of agent `id`.
    pub fn get_ai(&self, id: ID) -> (ai: Result<&AI, EngineError>)
        ensures
            match ai {
                Ok(definition) => id < self.agents().len() && *definition == self.agents()[id as int],
                Err(e) => e == EngineError::UnknownAgentId && id >= self.agents().len(),
            },
    {
        if id < self.ais.len() {
            Ok(&self.ais[id])
        } else {
            Err(EngineError::UnknownAgentId)
        }
    }

    /// The cache of computed keyframes.
    pub fn keyframes(&self) -> (store: &KeyframeStore)
        requires
            self.wf(),
        ensures
            store.wf(),
            store@ == self.history(),
    {
        &self.keyframes
    }

    /// The cached keyframe nearest to `target` among those at or before it,
    /// with its tick.
    pub fn get_closest_keyframe(&self, target: TimeIndex) -> (found: Result<
        (TimeIndex, &Keyframe),
        EngineError,
    >)
        requires
            self.wf(),
        ensures
            match found {
                Ok((time, keyframe)) => is_anchor(self.history(), target, time) && keyframe@
                    == self.history()[time] && keyframe.wf(),
                Err(e) => e == EngineError::NoAnchor && !has_anchor(self.history(), target),
            },
    {
        self.keyframes.closest_at_or_before(target)
    }

    /// Seeds the history of a server that has none with the keyframe of one
    /// tick.
    pub fn bootstrap(&mut self, time: TimeIndex, keyframe: Keyframe) -> (done: Result<
        (),
        EngineError,
    >)
        requires
            old(self).wf(),
            keyframe.wf(),
        ensures
            final(self).wf(),
            final(self).agents() == old(self).agents(),
            final(self).rule_table() == old(self).rule_table(),
            final(self).portal_list() == old(self).portal_list(),
            match done {
                Ok(_) => is_vacant(old(self).history()) && final(self).history() == old(
                    self,
                ).history().insert(time, keyframe@),
                Err(e) => e == EngineError::AlreadyBootstrapped && !is_vacant(old(self).history())
                    && final(self).history() == old(self).history(),
            },
    {
        self.keyframes.bootstrap(time, keyframe)
    }

    /// Starts the game: a server without history gets the keyframe of tick 0,
    /// in which every registered agent stands at its starting placement. On a
    /// server that has history already, nothing happens.
    pub fn start_game(&mut self)
        requires
            old(self).wf(),
        ensures
            started(*old(self), *final(self)),
    {
        if !self.keyframes.is_empty() {
            return ;
        }
        let mut keyframe = Keyframe::new();
        let mut i: usize = 0;
        while i < self.ais.len()
            invariant
                i <= self.ais.len(),
                keyframe.wf(),
                keyframe@.len() == i,
                forall|k: int|
                    0 <= k < i ==> keyframe@[k] == (AgentState {
                        id: k as ID,
                        location: self.ais@[k].start_location,
                        orientation: self.ais@[k].start_orientation,
                    }),
            decreases self.ais.len() - i,
        {
            let ai = &self.ais[i];
            keyframe.append(
                AgentState {
                    id: i,
                    location: ai.start_location,
                    orientation: ai.start_orientation,
                },
            );
            i += 1;
        }
        assert(keyframe@ =~= initial_keyframe(self.ais@));
        let _ = self.keyframes.bootstrap(0, keyframe);
        assert(self.keyframes@ =~= opening(self.ais@));
    }

    /// The keyframe at tick `target`.
    ///
    /// The answer is computed from the cached keyframe nearest to `target`
    /// among those at or before it, one tick at a time, and every tick
    /// computed on the way is cached before the next one is begun. A tick that
    /// cannot be computed ends the query with its error; the ticks before it
    /// stay cached.
    pub fn advance_to(&mut self, target: TimeIndex) -> (result: Result<Keyframe, EngineError>)
        requires
            old(self).wf(),
        ensures
            final(self).wf(),
            final(self).agents() == old(self).agents(),
            final(self).rule_table() == old(self).rule_table(),
            final(self).portal_list() == old(self).portal_list(),
            final(self).history() == advanced(
                old(self).agents(),
                old(self).rule_table(),
                old(self).history(),
                target,
            ),
            match result {
                Ok(keyframe) => keyframe.wf() && outcome(
                    old(self).agents(),
                    old(self).rule_table(),
                    old(self).history(),
                    target,
                ) == Ok::<Seq<AgentState>, EngineError>(keyframe@),
                Err(e) => outcome(
                    old(self).agents(),
                    old(self).rule_table(),
                    old(self).history(),
                    target,
                ) == Err::<Seq<AgentState>, EngineError>(e),
            },
    {
        let ghost before = self.keyframes@;
        let ghost agents = self.ais@;
        let ghost rules = self.rules@;
        let start = match self.keyframes.closest_at_or_before(target) {
            Ok((time, _)) => time,
            Err(_) => {
                return Err(EngineError::NoAnchor);
            },
        };
        proof {
            lemma_anchor_unique(before, target, start);
            assert(self.keyframes@ =~= filled(agents, rules, before, start, start));
        }
        let mut current = start;
        while current != target
            invariant
                old(self).wf(),
                before == old(self).keyframes@,
                agents == old(self).ais@,
                rules == old(self).rules@,
                self.keyframes.wf(),
                self.ais@ == agents,
                self.rules@ == rules,
                self.portals@ == old(self).portals@,
                is_anchor(before, target, start),
                start <= current <= target,
                self.keyframes@ == filled(agents, rules, before, start, current),
                forall|t: TimeIndex|
                    start <= t <= current ==> #[trigger] run(
                        agents,
                        rules,
                        before[start],
                        start as nat,
                        t as nat,
                    ) is Ok,
            decreases target - current,
        {
            let next_tick = current + 1;
            let ghost reached = run(agents, rules, before[start], start as nat, current as nat);
            assert(reached is Ok);
            assert(self.keyframes@.contains_key(current));
            assert(self.keyframes@[current] == reached->Ok_0) by {
                if before.contains_key(current) {
                    assert(current == start);
                }
            }
            let computed = match self.keyframes.get(current) {
                Ok(previous) => step_keyframe(&self.ais, &self.rules, previous, next_tick),
                Err(e) => Err(e),
            };
            match computed {
                Ok(keyframe) => {
                    assert(run(agents, rules, before[start], start as nat, next_tick as nat) == Ok::<
                        Seq<AgentState>,
                        EngineError,
                    >(keyframe@));
                    assert(!self.keyframes@.contains_key(next_tick)) by {
                        if before.contains_key(next_tick) {
                            assert(next_tick <= start);
                        }
                    }
                    let ghost cached = self.keyframes@;
                    let ghost view = keyframe@;
                    let _ = self.keyframes.insert(next_tick, keyframe);
                    assert(self.keyframes@ =~= filled(agents, rules, before, start, next_tick)) by {
                        assert(self.keyframes@ == cached.insert(next_tick, view));
                    }
                    current = next_tick;
                },
                Err(e) => {
                    proof {
                        assert(run(agents, rules, before[start], start as nat, next_tick as nat)
                            == Err::<Seq<AgentState>, EngineError>(e));
                        lemma_run_sticky(
                            agents,
                            rules,
                            before[start],
                            start as nat,
                            next_tick as nat,
                            target as nat,
                        );
                        assert forall|t: TimeIndex| next_tick <= t <= target implies run(
                            agents,
                            rules,
                            before[start],
                            start as nat,
                            t as nat,
                        ) is Err by {
                            lemma_run_sticky(
                                agents,
                                rules,
                                before[start],
                                start as nat,
                                next_tick as nat,
                                t as nat,
                            );
                        }
                        assert(self.keyframes@ =~= filled(agents, rules, before, start, target));
                    }
                    return Err(e);
                },
            }
        }
        match self.keyframes.get(target) {
            Ok(keyframe) => Ok(keyframe.clone()),
            Err(e) => Err(e),
        }
    }
}

} // verus!
