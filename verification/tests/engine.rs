use timewars::server::agent::{AIType, Rule, RuleTable, AI};
use timewars::server::error::EngineError;
use timewars::server::keyframe::{AgentState, Keyframe};
use timewars::server::stepper::step_keyframe;
use timewars::server::Server;

fn unit(ai_type: AIType, x: i64, y: i64, orientation: i64) -> AI {
    AI { ai_type, player: 0, start_location: (x, y), start_orientation: orientation }
}

fn snapshot(entries: &[(usize, (i64, i64), i64)]) -> Keyframe {
    let mut keyframe = Keyframe::new();
    for e in entries {
        keyframe.set(e.0, e.1, e.2);
    }
    keyframe
}

fn entries_of(keyframe: &Keyframe) -> Vec<(usize, (i64, i64), i64)> {
    let mut all = Vec::new();
    let mut i = 0;
    while let Some(state) = keyframe.entry(i) {
        all.push((state.id, state.location, state.orientation));
        i += 1;
    }
    all
}

fn cached(server: &Server) -> Vec<(usize, Vec<(usize, (i64, i64), i64)>)> {
    server
        .keyframes()
        .ticks()
        .into_iter()
        .map(|t| (t, entries_of(server.keyframes().get(t).unwrap())))
        .collect()
}

#[test]
fn calculate_keyframes() {
    let mut s = Server::new();
    let ai = AI {
        ai_type: AIType::Scout,
        player: 0,
        start_location: (0, 0),
        start_orientation: 0,
    };
    s.add_ai(ai);
    s.bootstrap(0, snapshot(&[(0, (0, 0), 0)])).unwrap();

    s.advance_to(10).unwrap();
    {
        let loc = s.keyframes().get(10 as usize).unwrap().entry(0).unwrap().location;
        assert_eq!((loc.0 as f32, loc.1 as f32), (10.0, 100.0));
    }
    s.advance_to(20).unwrap();
    {
        let loc = s.keyframes().get(20 as usize).unwrap().entry(0).unwrap().location;
        assert_eq!((loc.0 as f32, loc.1 as f32), (20.0, 400.0));
    }
}

#[test]
fn mover_follows_the_parabola() {
    let mut s = Server::new();
    s.add_ai(unit(AIType::Scout, 0, 0, 7));
    s.start_game();
    let at_10 = s.advance_to(10).unwrap();
    assert_eq!(entries_of(&at_10), vec![(0, (10, 100), 7)]);
    let at_20 = s.advance_to(20).unwrap();
    assert_eq!(entries_of(&at_20), vec![(0, (20, 400), 7)]);
    let at_1 = s.advance_to(1).unwrap();
    assert_eq!(entries_of(&at_1), vec![(0, (1, 1), 7)]);
}

#[test]
fn mover_from_a_negative_start() {
    let mut s = Server::new();
    s.add_ai(unit(AIType::Scout, -3, 5, 0));
    s.start_game();
    assert_eq!(entries_of(&s.advance_to(0).unwrap()), vec![(0, (-3, 5), 0)]);
    assert_eq!(entries_of(&s.advance_to(1).unwrap()), vec![(0, (-2, 4), 0)]);
    assert_eq!(entries_of(&s.advance_to(3).unwrap()), vec![(0, (0, 0), 0)]);
    assert_eq!(entries_of(&s.advance_to(5).unwrap()), vec![(0, (2, 4), 0)]);
}

#[test]
fn non_movers_stay_at_their_start() {
    let mut s = Server::new();
    s.add_ai(unit(AIType::Knight, 4, -9, 90));
    s.add_ai(unit(AIType::Scout, 0, 0, 0));
    s.add_ai(unit(AIType::Builder, -1, 2, 270));
    s.start_game();
    for target in [5usize, 0, 17, 3, 17, 40] {
        let keyframe = s.advance_to(target).unwrap();
        assert_eq!(keyframe.get(0), Some(((4, -9), 90)));
        assert_eq!(keyframe.get(2), Some(((-1, 2), 270)));
        if target > 0 {
            let x = target as i64;
            assert_eq!(keyframe.get(1), Some(((x, x * x), 0)));
        }
        assert_eq!(keyframe.len(), 3);
    }
}

#[test]
fn query_before_the_bootstrap_tick_has_no_anchor() {
    let mut s = Server::new();
    s.add_ai(unit(AIType::Scout, 0, 0, 0));
    assert_eq!(s.advance_to(3).unwrap_err(), EngineError::NoAnchor);
    s.bootstrap(5, snapshot(&[(0, (0, 0), 0)])).unwrap();
    assert_eq!(s.advance_to(4).unwrap_err(), EngineError::NoAnchor);
    assert_eq!(s.advance_to(0).unwrap_err(), EngineError::NoAnchor);
    assert_eq!(cached(&s), vec![(5, vec![(0, (0, 0), 0)])]);
    assert_eq!(entries_of(&s.advance_to(5).unwrap()), vec![(0, (0, 0), 0)]);
    assert_eq!(entries_of(&s.advance_to(6).unwrap()), vec![(0, (1, 1), 0)]);
}

#[test]
fn cache_hit_returns_the_cached_keyframe() {
    let mut s = Server::new();
    s.add_ai(unit(AIType::Scout, 0, 0, 0));
    // A seeded keyframe that no run would produce is still answered as cached.
    s.bootstrap(2, snapshot(&[(0, (50, 7), 3)])).unwrap();
    assert_eq!(entries_of(&s.advance_to(2).unwrap()), vec![(0, (50, 7), 3)]);
    assert_eq!(cached(&s).len(), 1);
    assert_eq!(entries_of(&s.advance_to(3).unwrap()), vec![(0, (51, 2601), 3)]);
}

#[test]
fn query_caches_every_tick_up_to_the_target() {
    let mut s = Server::new();
    s.add_ai(unit(AIType::Scout, 0, 0, 0));
    s.start_game();
    assert_eq!(s.keyframes().latest(), Some(0));
    s.advance_to(4).unwrap();
    assert_eq!(s.keyframes().ticks(), vec![0, 1, 2, 3, 4]);
    assert_eq!(s.keyframes().latest(), Some(4));
    s.advance_to(7).unwrap();
    assert_eq!(s.keyframes().ticks(), vec![0, 1, 2, 3, 4, 5, 6, 7]);
    s.advance_to(2).unwrap();
    assert_eq!(s.keyframes().ticks(), vec![0, 1, 2, 3, 4, 5, 6, 7]);
    for t in 0..=7usize {
        let x = t as i64;
        let y = if t == 0 { 0 } else { x * x };
        assert_eq!(entries_of(s.keyframes().get(t).unwrap()), vec![(0, (x, y), 0)]);
    }
}

#[test]
fn query_twice_changes_nothing_the_second_time() {
    let mut s = Server::new();
    s.add_ai(unit(AIType::Scout, 2, 2, 1));
    s.add_ai(unit(AIType::Knight, 8, 8, 2));
    s.start_game();
    let first = s.advance_to(6).unwrap();
    let after_first = cached(&s);
    let second = s.advance_to(6).unwrap();
    assert!(first.same_as(&second));
    assert_eq!(entries_of(&first), entries_of(&second));
    assert_eq!(cached(&s), after_first);
}

#[test]
fn answers_do_not_depend_on_the_order_of_queries() {
    let orders: [[usize; 5]; 4] =
        [[1, 2, 5, 9, 12], [12, 9, 5, 2, 1], [5, 12, 1, 9, 2], [9, 9, 2, 12, 5]];
    let mut answers: Vec<Vec<(usize, Vec<(usize, (i64, i64), i64)>)>> = Vec::new();
    for order in orders {
        let mut s = Server::new();
        s.add_ai(unit(AIType::Scout, -4, 0, 0));
        s.add_ai(unit(AIType::Builder, 1, 1, 5));
        s.start_game();
        let mut seen = Vec::new();
        for target in order {
            seen.push((target, entries_of(&s.advance_to(target).unwrap())));
        }
        seen.sort();
        seen.dedup();
        answers.push(seen);
    }
    assert_eq!(answers[0], answers[1]);
    assert_eq!(answers[0], answers[2]);
    let mut shorter = answers[0].clone();
    shorter.retain(|a| a.0 != 1);
    assert_eq!(shorter, answers[3]);
    assert_eq!(answers[0][2], (5, vec![(0, (1, 1), 0), (1, (1, 1), 5)]));
}

#[test]
fn query_between_two_seeds_starts_from_the_earlier_one() {
    let mut s = Server::new();
    s.add_ai(unit(AIType::Scout, 0, 0, 0));
    s.start_game();
    s.advance_to(10).unwrap();
    let mut other = Server::new();
    other.add_ai(unit(AIType::Scout, 0, 0, 0));
    other.start_game();
    other.advance_to(3).unwrap();
    other.advance_to(10).unwrap();
    assert_eq!(cached(&s), cached(&other));
    assert_eq!(s.get_closest_keyframe(25).unwrap().0, 10);
    assert_eq!(s.get_closest_keyframe(4).unwrap().0, 4);
}

#[test]
fn unknown_agent_ends_the_query() {
    let mut s = Server::new();
    s.add_ai(unit(AIType::Scout, 0, 0, 0));
    s.bootstrap(0, snapshot(&[(0, (0, 0), 0), (3, (1, 1), 0)])).unwrap();
    assert_eq!(s.advance_to(2).unwrap_err(), EngineError::UnknownAgentId);
    assert_eq!(cached(&s).len(), 1);
    // The cached tick itself is still answered.
    assert_eq!(s.advance_to(0).unwrap().len(), 2);
    assert_eq!(s.get_ai(3).unwrap_err(), EngineError::UnknownAgentId);
    assert_eq!(s.get_ai(0).unwrap().ai_type, AIType::Scout);
}

#[test]
fn leaving_the_grid_ends_the_query_and_keeps_earlier_ticks() {
    let mut s = Server::new();
    s.add_ai(unit(AIType::Scout, 3037000497, 0, 0));
    s.start_game();
    // 3037000499 is the largest x whose square is an i64.
    assert_eq!(s.advance_to(5).unwrap_err(), EngineError::CoordinateOverflow);
    assert_eq!(s.keyframes().ticks(), vec![0, 1, 2]);
    assert_eq!(
        entries_of(s.keyframes().get(2).unwrap()),
        vec![(0, (3037000499, 9223372030926249001), 0)]
    );
    assert_eq!(s.advance_to(5).unwrap_err(), EngineError::CoordinateOverflow);
    assert_eq!(s.keyframes().ticks(), vec![0, 1, 2]);
    assert_eq!(s.advance_to(2).unwrap().len(), 1);
}

#[test]
fn unknown_agent_is_reported_before_leaving_the_grid() {
    let mut s = Server::new();
    s.add_ai(unit(AIType::Scout, 0, 0, 0));
    s.bootstrap(0, snapshot(&[(0, (i64::MAX, 0), 0), (9, (0, 0), 0)])).unwrap();
    assert_eq!(s.advance_to(1).unwrap_err(), EngineError::UnknownAgentId);
    let mut t = Server::new();
    t.add_ai(unit(AIType::Scout, 0, 0, 0));
    t.bootstrap(0, snapshot(&[(0, (i64::MAX, 0), 0)])).unwrap();
    assert_eq!(t.advance_to(1).unwrap_err(), EngineError::CoordinateOverflow);
}

#[test]
fn step_advances_each_agent_by_its_rule() {
    let agents = vec![unit(AIType::Knight, 0, 0, 0), unit(AIType::Scout, 0, 0, 0)];
    let rules = RuleTable::standard();
    let before = snapshot(&[(1, (6, 1), 4), (0, (6, 1), 4)]);
    let after = step_keyframe(&agents, &rules, &before, 1).unwrap();
    assert_eq!(entries_of(&after), vec![(0, (6, 1), 4), (1, (7, 49), 4)]);
    let nobody = step_keyframe(&agents, &rules, &Keyframe::new(), 1).unwrap();
    assert_eq!(nobody.len(), 0);
}

#[test]
fn supplied_rule_replaces_the_default() {
    let mut rules = RuleTable::new();
    assert_eq!(rules.rule_for(AIType::Scout), Rule::Identity);
    rules.supply(AIType::Builder, Rule::Mover);
    assert_eq!(rules.rule_for(AIType::Builder), Rule::Mover);
    assert_eq!(rules.rule_for(AIType::Knight), Rule::Identity);
    assert_eq!(rules.rule_for(AIType::Scout), Rule::Identity);
    let standard = RuleTable::standard();
    assert_eq!(standard.rule_for(AIType::Scout), Rule::Mover);
    assert_eq!(standard.rule_for(AIType::Knight), Rule::Identity);
    assert_eq!(standard.rule_for(AIType::Builder), Rule::Identity);

    let mut s = Server::with_rules(rules.clone());
    s.add_ai(unit(AIType::Scout, 1, 1, 0));
    s.add_ai(unit(AIType::Builder, 1, 1, 0));
    s.start_game();
    let keyframe = s.advance_to(2).unwrap();
    assert_eq!(entries_of(&keyframe), vec![(0, (1, 1), 0), (1, (3, 9), 0)]);
}

#[test]
fn rules_move_one_tick() {
    assert_eq!(Rule::Identity.advance((5, 6), 7, 1), Some(((5, 6), 7)));
    assert_eq!(Rule::Mover.advance((5, 6), 7, 1), Some(((6, 36), 7)));
    assert_eq!(Rule::Mover.advance((-1, 6), 7, 9), Some(((0, 0), 7)));
    assert_eq!(Rule::Mover.advance((i64::MAX, 0), 0, 1), None);
    assert_eq!(Rule::Mover.advance((3037000499, 0), 0, 1), None);
    assert_eq!(
        Rule::Mover.advance((-3037000500, 0), 0, 1),
        Some(((-3037000499, 9223372030926249001), 0))
    );
    assert_eq!(Rule::Mover.advance((i64::MIN, 0), 0, 1), None);
}

#[test]
fn start_game_seeds_tick_zero_once() {
    let mut s = Server::new();
    s.add_ai(unit(AIType::Scout, 3, 4, 5));
    s.add_ai(unit(AIType::Knight, 6, 7, 8));
    s.start_game();
    assert_eq!(cached(&s), vec![(0, vec![(0, (3, 4), 5), (1, (6, 7), 8)])]);
    s.advance_to(2).unwrap();
    let before = cached(&s);
    s.add_ai(unit(AIType::Builder, 0, 0, 0));
    s.start_game();
    assert_eq!(cached(&s), before);
    // An agent registered after the start is in no keyframe computed later.
    assert_eq!(s.advance_to(3).unwrap().len(), 2);
}

#[test]
fn agent_ids_are_handed_out_in_order() {
    let mut s = Server::new();
    assert_eq!(s.add_ai(unit(AIType::Scout, 0, 0, 0)), 0);
    assert_eq!(s.add_ai(unit(AIType::Knight, 1, 0, 0)), 1);
    assert_eq!(s.add_ai(unit(AIType::Knight, 2, 0, 0)), 2);
    assert_eq!(s.get_ai(1).unwrap().start_location, (1, 0));
    assert_eq!(*s.get_ai(2).unwrap(), unit(AIType::Knight, 2, 0, 0));
    assert_eq!(AIType::Scout.tag(), 0);
    assert_eq!(AIType::Knight.tag(), 1);
    assert_eq!(AIType::Builder.tag(), 2);
}

#[test]
fn second_bootstrap_is_declined() {
    let mut s = Server::new();
    s.bootstrap(4, snapshot(&[(0, (1, 1), 0)])).unwrap();
    assert_eq!(
        s.bootstrap(1, snapshot(&[(0, (2, 2), 0)])).unwrap_err(),
        EngineError::AlreadyBootstrapped
    );
    assert_eq!(cached(&s), vec![(4, vec![(0, (1, 1), 0)])]);
    assert_eq!(
        s.keyframes().get(4).unwrap().entry(0),
        Some(AgentState { id: 0, location: (1, 1), orientation: 0 })
    );
}
