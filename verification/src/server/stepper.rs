//! The simulation stepper: what one tick does to a keyframe, and what a query
//! for a tick does to a history of keyframes.

use crate::server::agent::{rule_of, Rule, RuleTable, AI};
use crate::server::error::EngineError;
use crate::server::keyframe::{ids_increasing, AgentState, Keyframe};
use crate::server::store::{has_anchor, is_anchor, History, TimeIndex};
use vstd::prelude::*;

verus! {

/// Every agent of `keyframe` is defined in the agent table.
pub open spec fn all_known(agents: Seq<AI>, keyframe: Seq<AgentState>) -> bool {
    forall|i: int| 0 <= i < keyframe.len() ==> (#[trigger] keyframe[i]).id < agents.len()
}

/// The state of one agent at `tick`, from its state one tick earlier; `None`
/// where its rule leaves the grid.
pub open spec fn advance_entry(agents: Seq<AI>, rules: Seq<Rule>, state: AgentState, tick: nat)
    -> Option<AgentState>
    recommends
        state.id < agents.len(),
{
    match rule_of(rules, agents[state.id as int].ai_type).spec_advance(
        state.location,
        state.orientation,
        tick,
    ) {
        Some((location, orientation)) => Some(AgentState { id: state.id, location, orientation }),
        None => None,
    }
}

/// Every agent of `keyframe` stays on the grid at `tick`.
pub open spec fn all_in_range(
    agents: Seq<AI>,
    rules: Seq<Rule>,
    keyframe: Seq<AgentState>,
    tick: nat,
) -> bool {
    forall|i: int|
        0 <= i < keyframe.len() ==> advance_entry(agents, rules, #[trigger] keyframe[i], tick)
            is Some
}

/// The keyframe at `tick`, from the keyframe one tick earlier.
///
/// Each agent of the earlier keyframe is advanced by the rule of its variant.
/// An agent that the agent table does not define makes the step fail, and so
/// does, among defined agents, one that would leave the grid.
pub open spec fn step(agents: Seq<AI>, rules: Seq<Rule>, keyframe: Seq<AgentState>, tick: nat)
    -> Result<Seq<AgentState>, EngineError> {
    if !all_known(agents, keyframe) {
        Err(EngineError::UnknownAgentId)
    } else if !all_in_range(agents, rules, keyframe, tick) {
        Err(EngineError::CoordinateOverflow)
    } else {
        Ok(
            Seq::new(
                keyframe.len(),
                |i: int| advance_entry(agents, rules, keyframe[i], tick)->Some_0,
            ),
        )
    }
}

/// The keyframe at tick `to`, stepping tick by tick from `keyframe` at tick
/// `from`; the first step that fails makes the whole run fail.
pub open spec fn run(
    agents: Seq<AI>,
    rules: Seq<Rule>,
    keyframe: Seq<AgentState>,
    from: nat,
    to: nat,
) -> Result<Seq<AgentState>, EngineError>
    decreases to,
{
    if to <= from {
        Ok(keyframe)
    } else {
        match run(agents, rules, keyframe, from, (to - 1) as nat) {
            Ok(previous) => step(agents, rules, previous, to),
            Err(e) => Err(e),
        }
    }
}

/// The nearest tick of `history` at or before `target`.
pub open spec fn anchor(history: History, target: TimeIndex) -> TimeIndex {
    choose|time: TimeIndex| is_anchor(history, target, time)
}

/// What a query for `target` answers on `history`.
pub open spec fn outcome(agents: Seq<AI>, rules: Seq<Rule>, history: History, target: TimeIndex)
    -> Result<Seq<AgentState>, EngineError> {
    if has_anchor(history, target) {
        let a = anchor(history, target);
        run(agents, rules, history[a], a as nat, target as nat)
    } else {
        Err(EngineError::NoAnchor)
    }
}

/// `history` together with the keyframes of the ticks after `from` up to
/// `upto` that can be computed from its keyframe at `from`.
pub open spec fn filled(
    agents: Seq<AI>,
    rules: Seq<Rule>,
    history: History,
    from: TimeIndex,
    upto: TimeIndex,
) -> History {
    Map::new(
        |t: TimeIndex|
            history.contains_key(t) || (from < t <= upto && run(
                agents,
                rules,
                history[from],
                from as nat,
                t as nat,
            ) is Ok),
        |t: TimeIndex|
            if history.contains_key(t) {
                history[t]
            } else {
                run(agents, rules, history[from], from as nat, t as nat)->Ok_0
            },
    )
}

/// What a query for `target` leaves behind on `history`: every tick from the
/// anchor to the target that could be computed is cached, and nothing that was
/// cached before has changed.
pub open spec fn advanced(agents: Seq<AI>, rules: Seq<Rule>, history: History, target: TimeIndex)
    -> History {
    if has_anchor(history, target) {
        filled(agents, rules, history, anchor(history, target), target)
    } else {
        history
    }
}

/// A history that reaches back to `target` has a nearest tick at or before it.
pub proof fn lemma_anchor_exists(history: History, target: TimeIndex)
    requires
        has_anchor(history, target),
    ensures
        is_anchor(history, target, anchor(history, target)),
    decreases target,
{
    if history.contains_key(target) {
        assert(is_anchor(history, target, target));
    } else {
        let w = choose|t: TimeIndex| #[trigger] history.contains_key(t) && t <= target;
        assert(w < target);
        let below: TimeIndex = (target - 1) as TimeIndex;
        assert(history.contains_key(w) && w <= below);
        lemma_anchor_exists(history, below);
        assert(is_anchor(history, target, anchor(history, below)));
    }
}

/// The nearest tick at or before `target` is the only one.
pub proof fn lemma_anchor_unique(history: History, target: TimeIndex, time: TimeIndex)
    requires
        is_anchor(history, target, time),
    ensures
        has_anchor(history, target),
        anchor(history, target) == time,
{
    let a = anchor(history, target);
    assert(is_anchor(history, target, a));
}

/// Once a run has failed, running on fails in the same way.
pub proof fn lemma_run_sticky(
    agents: Seq<AI>,
    rules: Seq<Rule>,
    keyframe: Seq<AgentState>,
    from: nat,
    mid: nat,
    to: nat,
)
    requires
        mid <= to,
        run(agents, rules, keyframe, from, mid) is Err,
    ensures
        run(agents, rules, keyframe, from, to) == run(agents, rules, keyframe, from, mid),
    decreases to,
{
    if mid < to {
        lemma_run_sticky(agents, rules, keyframe, from, mid, (to - 1) as nat);
    }
}

/// A run can be taken up at any tick that it has reached.
pub proof fn lemma_run_split(
    agents: Seq<AI>,
    rules: Seq<Rule>,
    keyframe: Seq<AgentState>,
    from: nat,
    mid: nat,
    to: nat,
)
    requires
        from <= mid <= to,
        run(agents, rules, keyframe, from, mid) is Ok,
    ensures
        run(agents, rules, keyframe, from, to) == run(
            agents,
            rules,
            run(agents, rules, keyframe, from, mid)->Ok_0,
            mid,
            to,
        ),
    decreases to,
{
    if mid < to {
        lemma_run_split(agents, rules, keyframe, from, mid, (to - 1) as nat);
    }
}

/// A step keeps the agents of a keyframe, in their order.
pub proof fn lemma_step_keeps_ids(
    agents: Seq<AI>,
    rules: Seq<Rule>,
    keyframe: Seq<AgentState>,
    tick: nat,
)
    requires
        step(agents, rules, keyframe, tick) is Ok,
    ensures
        step(agents, rules, keyframe, tick)->Ok_0.len() == keyframe.len(),
        forall|i: int|
            0 <= i < keyframe.len() ==> (#[trigger] step(agents, rules, keyframe, tick)->Ok_0[i]).id
                == keyframe[i].id,
        ids_increasing(keyframe) ==> ids_increasing(step(agents, rules, keyframe, tick)->Ok_0),
{
    let next = step(agents, rules, keyframe, tick)->Ok_0;
    assert forall|i: int| 0 <= i < keyframe.len() implies (#[trigger] next[i]).id
        == keyframe[i].id by {
        assert(advance_entry(agents, rules, keyframe[i], tick) is Some);
    }
    if ids_increasing(keyframe) {
        assert forall|i: int, j: int| 0 <= i < j < next.len() implies next[i].id
            < next[j].id by {
            assert(next[i].id == keyframe[i].id);
            assert(next[j].id == keyframe[j].id);
        }
    }
}

/// Computes the keyframe at `tick` from the keyframe one tick earlier.
pub fn step_keyframe(agents: &Vec<AI>, rules: &RuleTable, previous: &Keyframe, tick: TimeIndex)
    -> (next: Result<Keyframe, EngineError>)
    requires
        previous.wf(),
    ensures
        match next {
            Ok(keyframe) => keyframe.wf() && step(agents@, rules@, previous@, tick as nat) == Ok::<
                Seq<AgentState>,
                EngineError,
            >(keyframe@),
            Err(e) => step(agents@, rules@, previous@, tick as nat) == Err::<
                Seq<AgentState>,
                EngineError,
            >(e),
        },
{
    let n = previous.len();
    let mut next = Keyframe::new();
    let mut overflow = false;
    let mut i: usize = 0;
    while i < n
        invariant
            previous.wf(),
            next.wf(),
            i <= n,
            n == previous@.len(),
            forall|k: int| 0 <= k < i ==> (#[trigger] previous@[k]).id < agents@.len(),
            overflow ==> exists|k: int|
                0 <= k < i && advance_entry(agents@, rules@, #[trigger] previous@[k], tick as nat)
                    is None,
            !overflow ==> next@.len() == i,
            !overflow ==> forall|k: int|
                0 <= k < i ==> advance_entry(agents@, rules@, #[trigger] previous@[k], tick as nat)
                    == Some(next@[k]),
        decreases n - i,
    {
        let state = previous.entry(i).unwrap();
        if state.id >= agents.len() {
            return Err(EngineError::UnknownAgentId);
        }
        if !overflow {
            let rule = rules.rule_for(agents[state.id].ai_type);
            match rule.advance(state.location, state.orientation, tick) {
                Some((location, orientation)) => {
                    proof {
                        if i > 0 {
                            assert(advance_entry(
                                agents@,
                                rules@,
                                previous@[i - 1],
                                tick as nat,
                            ) == Some(next@[i - 1]));
                            assert(previous@[i - 1].id < previous@[i as int].id);
                        }
                    }
                    next.append(AgentState { id: state.id, location, orientation });
                },
                None => {
                    overflow = true;
                },
            }
        }
        i += 1;
    }
    if overflow {
        Err(EngineError::CoordinateOverflow)
    } else {
        assert(next@ =~= step(agents@, rules@, previous@, tick as nat)->Ok_0);
        Ok(next)
    }
}

} // verus!
