//! What holds of every query, whatever was asked before it.

use crate::server::agent::{rule_of, Rule, AI};
use crate::server::error::EngineError;
use crate::server::{initial_keyframe, opening};
use crate::server::keyframe::{ids_increasing, AgentState, ID};
use crate::server::stepper::{
    advance_entry, advanced, anchor, filled, lemma_anchor_exists, lemma_anchor_unique,
    lemma_run_split, lemma_run_sticky, lemma_step_keeps_ids, outcome, run,
};
use crate::server::store::{extends, has_anchor, is_anchor, is_latest, History, TimeIndex};
use vstd::prelude::*;

verus! {

/// `history` is `origin` together with keyframes that queries on `origin`
/// answer: it has kept every keyframe of `origin`, and each of its keyframes
/// is what a query for its tick answers on `origin`.
pub open spec fn derived_from(agents: Seq<AI>, rules: Seq<Rule>, origin: History, history: History)
    -> bool {
    &&& extends(history, origin)
    &&& forall|t: TimeIndex| #[trigger]
        history.contains_key(t) ==> outcome(agents, rules, origin, t) == Ok::<
            Seq<AgentState>,
            EngineError,
        >(history[t])
}

/// The history that a series of queries leaves behind on `history`, the
/// queries made in the order of `targets`.
pub open spec fn after_queries(
    agents: Seq<AI>,
    rules: Seq<Rule>,
    history: History,
    targets: Seq<TimeIndex>,
) -> History
    decreases targets.len(),
{
    if targets.len() == 0 {
        history
    } else {
        advanced(
            agents,
            rules,
            after_queries(agents, rules, history, targets.drop_last()),
            targets.last(),
        )
    }
}

/// A query on a history answers its cached keyframes as they are.
pub proof fn lemma_cached_answer(
    agents: Seq<AI>,
    rules: Seq<Rule>,
    history: History,
    time: TimeIndex,
)
    requires
        history.contains_key(time),
    ensures
        outcome(agents, rules, history, time) == Ok::<Seq<AgentState>, EngineError>(history[time]),
{
    assert(is_anchor(history, time, time));
    lemma_anchor_unique(history, time, time);
}

/// A history is derived from itself.
pub proof fn lemma_derived_reflexive(agents: Seq<AI>, rules: Seq<Rule>, history: History)
    ensures
        derived_from(agents, rules, history, history),
{
    assert forall|t: TimeIndex| #[trigger] history.contains_key(t) implies outcome(
        agents,
        rules,
        history,
        t,
    ) == Ok::<Seq<AgentState>, EngineError>(history[t]) by {
        lemma_cached_answer(agents, rules, history, t);
    }
}

/// Memoisation does not change answers: a history derived from `origin`
/// answers every query as `origin` does.
pub proof fn lemma_derived_answers(
    agents: Seq<AI>,
    rules: Seq<Rule>,
    origin: History,
    history: History,
    target: TimeIndex,
)
    requires
        derived_from(agents, rules, origin, history),
    ensures
        outcome(agents, rules, history, target) == outcome(agents, rules, origin, target),
{
    if has_anchor(history, target) {
        lemma_anchor_exists(history, target);
        let near = anchor(history, target);
        assert(history.contains_key(near));
        assert(outcome(agents, rules, origin, near) is Ok);
        assert(has_anchor(origin, near));
        lemma_anchor_exists(origin, near);
        let base = anchor(origin, near);
        assert(is_anchor(origin, target, base)) by {
            assert forall|u: TimeIndex| #[trigger]
                origin.contains_key(u) && u <= target implies u <= base by {
                assert(history.contains_key(u));
                assert(u <= near);
            }
        }
        lemma_anchor_unique(origin, target, base);
        lemma_run_split(
            agents,
            rules,
            origin[base],
            base as nat,
            near as nat,
            target as nat,
        );
    } else {
        if has_anchor(origin, target) {
            let w = choose|t: TimeIndex| #[trigger] origin.contains_key(t) && t <= target;
            assert(history.contains_key(w));
            assert(false);
        }
    }
}

/// A query keeps a history derived: what it caches is what `origin` answers.
pub proof fn lemma_derived_advanced(
    agents: Seq<AI>,
    rules: Seq<Rule>,
    origin: History,
    history: History,
    target: TimeIndex,
)
    requires
        derived_from(agents, rules, origin, history),
    ensures
        derived_from(agents, rules, origin, advanced(agents, rules, history, target)),
{
    let next = advanced(agents, rules, history, target);
    if has_anchor(history, target) {
        lemma_anchor_exists(history, target);
        let near = anchor(history, target);
        assert forall|t: TimeIndex| #[trigger] next.contains_key(t) implies outcome(
            agents,
            rules,
            origin,
            t,
        ) == Ok::<Seq<AgentState>, EngineError>(next[t]) by {
            if !history.contains_key(t) {
                assert(is_anchor(history, t, near)) by {
                    assert forall|u: TimeIndex| #[trigger]
                        history.contains_key(u) && u <= t implies u <= near by {
                        assert(u <= target);
                    }
                }
                lemma_anchor_unique(history, t, near);
                lemma_derived_answers(agents, rules, origin, history, t);
            }
        }
        assert(extends(next, origin)) by {
            assert forall|t: TimeIndex| #[trigger] origin.contains_key(t) implies next.contains_key(
                t,
            ) && next[t] == origin[t] by {
                assert(history.contains_key(t));
            }
        }
    }
}

/// Whatever was asked, the history is derived from the one the queries
/// started on.
pub proof fn lemma_queries_derive(
    agents: Seq<AI>,
    rules: Seq<Rule>,
    history: History,
    targets: Seq<TimeIndex>,
)
    ensures
        derived_from(agents, rules, history, after_queries(agents, rules, history, targets)),
    decreases targets.len(),
{
    if targets.len() == 0 {
        lemma_derived_reflexive(agents, rules, history);
    } else {
        lemma_queries_derive(agents, rules, history, targets.drop_last());
        lemma_derived_advanced(
            agents,
            rules,
            history,
            after_queries(agents, rules, history, targets.drop_last()),
            targets.last(),
        );
    }
}

/// Determinism: the answer for a tick does not depend on which queries were
/// made before it, nor on their order. After any two series of queries on the
/// same history, a query for `target` answers the same, and it answers what
/// it would have answered had nothing been asked before.
pub proof fn law_determinism(
    agents: Seq<AI>,
    rules: Seq<Rule>,
    history: History,
    first: Seq<TimeIndex>,
    second: Seq<TimeIndex>,
    target: TimeIndex,
)
    ensures
        outcome(agents, rules, after_queries(agents, rules, history, first), target) == outcome(
            agents,
            rules,
            history,
            target,
        ),
        outcome(agents, rules, after_queries(agents, rules, history, first), target) == outcome(
            agents,
            rules,
            after_queries(agents, rules, history, second),
            target,
        ),
{
    lemma_queries_derive(agents, rules, history, first);
    lemma_queries_derive(agents, rules, history, second);
    lemma_derived_answers(
        agents,
        rules,
        history,
        after_queries(agents, rules, history, first),
        target,
    );
    lemma_derived_answers(
        agents,
        rules,
        history,
        after_queries(agents, rules, history, second),
        target,
    );
}

/// A tick that a query has cached is answered from then on as it was cached:
/// once a query for `target` has succeeded, a query for `target` after any
/// further queries answers the keyframe that the history holds at `target`.
pub proof fn law_reproducible(
    agents: Seq<AI>,
    rules: Seq<Rule>,
    history: History,
    later: Seq<TimeIndex>,
    target: TimeIndex,
)
    requires
        history.contains_key(target),
    ensures
        after_queries(agents, rules, history, later).contains_key(target),
        after_queries(agents, rules, history, later)[target] == history[target],
        outcome(agents, rules, after_queries(agents, rules, history, later), target) == Ok::<
            Seq<AgentState>,
            EngineError,
        >(history[target]),
{
    lemma_queries_derive(agents, rules, history, later);
    lemma_cached_answer(agents, rules, after_queries(agents, rules, history, later), target);
}

/// Filling a history again from the nearest tick that the first filling
/// reached adds nothing.
proof fn lemma_refill_adds_nothing(
    agents: Seq<AI>,
    rules: Seq<Rule>,
    history: History,
    target: TimeIndex,
    base: TimeIndex,
    near: TimeIndex,
)
    requires
        is_anchor(history, target, base),
        is_anchor(filled(agents, rules, history, base, target), target, near),
    ensures
        filled(agents, rules, filled(agents, rules, history, base, target), near, target)
            == filled(agents, rules, history, base, target),
{
    let once = filled(agents, rules, history, base, target);
    let twice = filled(agents, rules, once, near, target);
    assert(once.contains_key(base));
    assert(base <= near);
    let reached = run(agents, rules, history[base], base as nat, near as nat);
    assert(reached == Ok::<Seq<AgentState>, EngineError>(once[near])) by {
        if history.contains_key(near) {
            assert(near <= base);
        }
    }
    assert forall|t: TimeIndex| twice.contains_key(t) implies once.contains_key(t) by {
        if !once.contains_key(t) {
            assert(near < t <= target);
            lemma_run_split(agents, rules, history[base], base as nat, near as nat, t as nat);
            assert(run(agents, rules, history[base], base as nat, t as nat) is Ok);
            assert(false);
        }
    }
    assert(twice =~= once);
}

/// Idempotence: a query made twice in a row answers the same both times, and
/// the second time it leaves the history as it found it.
pub proof fn law_idempotence(
    agents: Seq<AI>,
    rules: Seq<Rule>,
    history: History,
    target: TimeIndex,
)
    ensures
        outcome(agents, rules, advanced(agents, rules, history, target), target) == outcome(
            agents,
            rules,
            history,
            target,
        ),
        advanced(agents, rules, advanced(agents, rules, history, target), target) == advanced(
            agents,
            rules,
            history,
            target,
        ),
{
    let once = advanced(agents, rules, history, target);
    lemma_derived_reflexive(agents, rules, history);
    lemma_derived_advanced(agents, rules, history, history, target);
    lemma_derived_answers(agents, rules, history, once, target);
    if has_anchor(history, target) {
        lemma_anchor_exists(history, target);
        let base = anchor(history, target);
        assert(once == filled(agents, rules, history, base, target));
        assert(once.contains_key(base));
        assert(has_anchor(once, target));
        lemma_anchor_exists(once, target);
        lemma_refill_adds_nothing(agents, rules, history, target, base, anchor(once, target));
    }
}

/// The cache never shrinks and never changes: a query keeps every keyframe
/// that was cached before it.
pub proof fn law_history_kept(
    agents: Seq<AI>,
    rules: Seq<Rule>,
    history: History,
    target: TimeIndex,
)
    ensures
        extends(advanced(agents, rules, history, target), history),
{
}

/// After a query that succeeded, every tick from the anchor of the query to
/// its target is cached.
pub proof fn law_cache_filled(
    agents: Seq<AI>,
    rules: Seq<Rule>,
    history: History,
    target: TimeIndex,
)
    requires
        outcome(agents, rules, history, target) is Ok,
    ensures
        has_anchor(history, target),
        forall|t: TimeIndex|
            anchor(history, target) <= t <= target ==> #[trigger] advanced(
                agents,
                rules,
                history,
                target,
            ).contains_key(t),
{
    lemma_anchor_exists(history, target);
    let base = anchor(history, target);
    let next = advanced(agents, rules, history, target);
    assert forall|t: TimeIndex| base <= t <= target implies #[trigger] next.contains_key(t) by {
        if run(agents, rules, history[base], base as nat, t as nat) is Err {
            lemma_run_sticky(agents, rules, history[base], base as nat, t as nat, target as nat);
        }
    }
}

/// Monotonic cache growth: after a query that succeeded, every tick between
/// the last tick that was cached before the query and its target is cached.
pub proof fn law_cache_growth(
    agents: Seq<AI>,
    rules: Seq<Rule>,
    history: History,
    target: TimeIndex,
    last: TimeIndex,
)
    requires
        outcome(agents, rules, history, target) is Ok,
        is_latest(history, last),
    ensures
        forall|t: TimeIndex|
            last <= t <= target ==> #[trigger] advanced(agents, rules, history, target).contains_key(
                t,
            ),
{
    law_cache_filled(agents, rules, history, target);
    let base = anchor(history, target);
    if last <= target {
        lemma_anchor_exists(history, target);
        assert(history.contains_key(last) && last <= target);
        assert(last <= base);
        assert(history.contains_key(base));
        assert(base <= last);
    }
}

/// A run keeps the agents of the keyframe it starts from, in their order: no
/// agent is added, none is dropped, and none changes its place in the
/// keyframe.
pub proof fn law_run_keeps_agents(
    agents: Seq<AI>,
    rules: Seq<Rule>,
    keyframe: Seq<AgentState>,
    from: nat,
    to: nat,
)
    requires
        run(agents, rules, keyframe, from, to) is Ok,
    ensures
        run(agents, rules, keyframe, from, to)->Ok_0.len() == keyframe.len(),
        forall|i: int|
            0 <= i < keyframe.len() ==> (#[trigger] run(
                agents,
                rules,
                keyframe,
                from,
                to,
            )->Ok_0[i]).id == keyframe[i].id,
        ids_increasing(keyframe) ==> ids_increasing(
            run(agents, rules, keyframe, from, to)->Ok_0,
        ),
    decreases to,
{
    if to > from {
        law_run_keeps_agents(agents, rules, keyframe, from, (to - 1) as nat);
        let previous = run(agents, rules, keyframe, from, (to - 1) as nat)->Ok_0;
        lemma_step_keeps_ids(agents, rules, previous, to);
    }
}

/// Non-movers: an agent whose variant has the identity rule stands, at every
/// tick that a run reaches, where it stood when the run began.
pub proof fn law_non_movers_stay(
    agents: Seq<AI>,
    rules: Seq<Rule>,
    keyframe: Seq<AgentState>,
    from: nat,
    to: nat,
    i: int,
)
    requires
        run(agents, rules, keyframe, from, to) is Ok,
        0 <= i < keyframe.len(),
        keyframe[i].id < agents.len(),
        rule_of(rules, agents[keyframe[i].id as int].ai_type) == Rule::Identity,
    ensures
        run(agents, rules, keyframe, from, to)->Ok_0.len() == keyframe.len(),
        run(agents, rules, keyframe, from, to)->Ok_0[i] == keyframe[i],
    decreases to,
{
    if to > from {
        law_non_movers_stay(agents, rules, keyframe, from, (to - 1) as nat, i);
        let previous = run(agents, rules, keyframe, from, (to - 1) as nat)->Ok_0;
        assert(advance_entry(agents, rules, previous[i], to) is Some);
    }
}

/// Non-movers, from the start of the game: at every tick that can be
/// queried, in whatever order the queries are made, an agent whose variant
/// has the identity rule is at its starting location and orientation.
pub proof fn law_non_movers_keep_start(
    agents: Seq<AI>,
    rules: Seq<Rule>,
    earlier: Seq<TimeIndex>,
    target: TimeIndex,
    id: ID,
)
    requires
        id < agents.len(),
        rule_of(rules, agents[id as int].ai_type) == Rule::Identity,
        outcome(agents, rules, after_queries(agents, rules, opening(agents), earlier), target)
            is Ok,
    ensures
        outcome(
            agents,
            rules,
            after_queries(agents, rules, opening(agents), earlier),
            target,
        )->Ok_0.len() == agents.len(),
        outcome(
            agents,
            rules,
            after_queries(agents, rules, opening(agents), earlier),
            target,
        )->Ok_0[id as int] == (AgentState {
            id,
            location: agents[id as int].start_location,
            orientation: agents[id as int].start_orientation,
        }),
{
    let start = opening(agents);
    law_determinism(agents, rules, start, earlier, Seq::empty(), target);
    assert(start.contains_key(0));
    assert(is_anchor(start, target, 0));
    lemma_anchor_unique(start, target, 0);
    law_non_movers_stay(agents, rules, initial_keyframe(agents), 0, target as nat, id as int);
}

/// Every keyframe of a game holds every agent: at every tick that can be
/// queried after the start of the game, in whatever order the queries are
/// made, the keyframe has one entry for each agent of the table, at the place
/// of the agent's id.
pub proof fn law_every_agent_present(
    agents: Seq<AI>,
    rules: Seq<Rule>,
    earlier: Seq<TimeIndex>,
    target: TimeIndex,
)
    requires
        agents.len() <= usize::MAX,
        outcome(agents, rules, after_queries(agents, rules, opening(agents), earlier), target)
            is Ok,
    ensures
        outcome(
            agents,
            rules,
            after_queries(agents, rules, opening(agents), earlier),
            target,
        )->Ok_0.len() == agents.len(),
        forall|id: int|
            0 <= id < agents.len() ==> (#[trigger] outcome(
                agents,
                rules,
                after_queries(agents, rules, opening(agents), earlier),
                target,
            )->Ok_0[id]).id == id,
{
    let start = opening(agents);
    law_determinism(agents, rules, start, earlier, Seq::empty(), target);
    assert(start.contains_key(0));
    assert(is_anchor(start, target, 0));
    lemma_anchor_unique(start, target, 0);
    law_run_keeps_agents(agents, rules, initial_keyframe(agents), 0, target as nat);
}

/// The movement rule: an agent whose variant has the mover rule has, after
/// `to - from` ticks of a run, moved as many cells along `x`, and once it has
/// moved its `y` is the square of its `x`; its orientation is unchanged.
pub proof fn law_mover_path(
    agents: Seq<AI>,
    rules: Seq<Rule>,
    keyframe: Seq<AgentState>,
    from: nat,
    to: nat,
    i: int,
)
    requires
        run(agents, rules, keyframe, from, to) is Ok,
        from <= to,
        0 <= i < keyframe.len(),
        keyframe[i].id < agents.len(),
        rule_of(rules, agents[keyframe[i].id as int].ai_type) == Rule::Mover,
    ensures
        run(agents, rules, keyframe, from, to)->Ok_0.len() == keyframe.len(),
        run(agents, rules, keyframe, from, to)->Ok_0[i].id == keyframe[i].id,
        run(agents, rules, keyframe, from, to)->Ok_0[i].orientation == keyframe[i].orientation,
        run(agents, rules, keyframe, from, to)->Ok_0[i].location.0 == keyframe[i].location.0 + (to
            - from),
        from < to ==> run(agents, rules, keyframe, from, to)->Ok_0[i].location.1 == (
        keyframe[i].location.0 + (to - from)) * (keyframe[i].location.0 + (to - from)),
    decreases to,
{
    if to > from {
        law_mover_path(agents, rules, keyframe, from, (to - 1) as nat, i);
        let previous = run(agents, rules, keyframe, from, (to - 1) as nat)->Ok_0;
        assert(advance_entry(agents, rules, previous[i], to) is Some);
        let x = previous[i].location.0 + 1;
        let along = keyframe[i].location.0 + (to - from);
        assert(x * x >= 0) by (nonlinear_arith);
        assert(x * x == along * along) by (nonlinear_arith)
            requires
                x == along,
        ;
    }
}

} // verus!
