use timewars::server::error::EngineError;
use timewars::server::keyframe::{AgentState, Keyframe};
use timewars::server::store::KeyframeStore;

fn frame(entries: &[(usize, (i64, i64), i64)]) -> Keyframe {
    let mut keyframe = Keyframe::new();
    for e in entries {
        keyframe.set(e.0, e.1, e.2);
    }
    keyframe
}

#[test]
fn empty_store_has_no_anchor() {
    let store = KeyframeStore::new();
    assert!(store.is_empty());
    assert_eq!(store.latest(), None);
    assert_eq!(store.ticks(), Vec::<usize>::new());
    assert_eq!(store.closest_at_or_before(0).unwrap_err(), EngineError::NoAnchor);
    assert_eq!(store.closest_at_or_before(usize::MAX).unwrap_err(), EngineError::NoAnchor);
    assert_eq!(store.get(0).unwrap_err(), EngineError::NotFound);
}

#[test]
fn bootstrap_only_seeds_an_empty_store() {
    let mut store = KeyframeStore::new();
    assert_eq!(store.bootstrap(3, frame(&[(1, (2, 3), 4)])), Ok(()));
    assert!(!store.is_empty());
    assert_eq!(
        store.bootstrap(3, frame(&[(1, (2, 3), 4)])),
        Err(EngineError::AlreadyBootstrapped)
    );
    assert_eq!(store.bootstrap(9, Keyframe::new()), Err(EngineError::AlreadyBootstrapped));
    assert_eq!(store.ticks(), vec![3]);
}

#[test]
fn closest_is_the_greatest_tick_at_or_before() {
    let mut store = KeyframeStore::new();
    for t in [40usize, 10, 30, 20] {
        store.insert(t, frame(&[(0, (t as i64, 0), 0)])).unwrap();
    }
    assert_eq!(store.ticks(), vec![10, 20, 30, 40]);
    assert_eq!(store.latest(), Some(40));
    assert_eq!(store.closest_at_or_before(9).unwrap_err(), EngineError::NoAnchor);
    let expect = [(10usize, 10usize), (11, 10), (19, 10), (20, 20), (39, 30), (40, 40), (1000, 40)];
    for (target, tick) in expect {
        let (found, keyframe) = store.closest_at_or_before(target).unwrap();
        assert_eq!(found, tick);
        assert_eq!(keyframe.get(0), Some(((tick as i64, 0), 0)));
    }
}

#[test]
fn insert_declines_a_different_keyframe() {
    let mut store = KeyframeStore::new();
    store.insert(5, frame(&[(0, (1, 1), 0), (1, (2, 2), 0)])).unwrap();
    // The same keyframe, built in another order, is no change.
    assert_eq!(store.insert(5, frame(&[(1, (2, 2), 0), (0, (1, 1), 0)])), Ok(()));
    assert_eq!(
        store.insert(5, frame(&[(0, (1, 1), 0), (1, (2, 3), 0)])),
        Err(EngineError::NonMonotonicInsert)
    );
    assert_eq!(store.insert(5, frame(&[(0, (1, 1), 0)])), Err(EngineError::NonMonotonicInsert));
    assert_eq!(store.insert(5, Keyframe::new()), Err(EngineError::NonMonotonicInsert));
    assert_eq!(store.ticks(), vec![5]);
    assert_eq!(store.get(5).unwrap().get(1), Some(((2, 2), 0)));
    assert_eq!(store.get(5).unwrap().len(), 2);
}

#[test]
fn get_finds_exact_ticks_only() {
    let mut store = KeyframeStore::new();
    store.insert(2, frame(&[(7, (1, 1), 0)])).unwrap();
    store.insert(4, Keyframe::new()).unwrap();
    assert_eq!(store.get(2).unwrap().len(), 1);
    assert_eq!(store.get(4).unwrap().len(), 0);
    for absent in [0usize, 1, 3, 5] {
        assert_eq!(store.get(absent).unwrap_err(), EngineError::NotFound);
    }
}

#[test]
fn keyframe_keeps_agents_in_the_order_of_their_ids() {
    let mut keyframe = Keyframe::new();
    assert_eq!(keyframe.len(), 0);
    assert_eq!(keyframe.entry(0), None);
    keyframe.set(5, (1, 2), 3);
    keyframe.set(2, (4, 5), 6);
    keyframe.set(9, (7, 8), 9);
    keyframe.set(5, (0, 0), 0);
    assert_eq!(keyframe.len(), 3);
    assert_eq!(
        keyframe.entry(0),
        Some(AgentState { id: 2, location: (4, 5), orientation: 6 })
    );
    assert_eq!(
        keyframe.entry(1),
        Some(AgentState { id: 5, location: (0, 0), orientation: 0 })
    );
    assert_eq!(
        keyframe.entry(2),
        Some(AgentState { id: 9, location: (7, 8), orientation: 9 })
    );
    assert_eq!(keyframe.entry(3), None);
    assert_eq!(keyframe.get(5), Some(((0, 0), 0)));
    assert_eq!(keyframe.get(2), Some(((4, 5), 6)));
    assert_eq!(keyframe.get(3), None);
    assert_eq!(keyframe.get(10), None);
}

#[test]
fn keyframe_copies_are_equal_and_independent() {
    let first = frame(&[(1, (1, 1), 1), (2, (2, 2), 2)]);
    let mut copy = first.clone();
    assert!(first.same_as(&copy));
    copy.set(2, (2, 2), 3);
    assert!(!first.same_as(&copy));
    assert!(!copy.same_as(&first));
    assert_eq!(first.get(2), Some(((2, 2), 2)));
    assert!(!first.same_as(&frame(&[(1, (1, 1), 1)])));
    assert!(!first.same_as(&frame(&[(1, (1, 1), 1), (3, (2, 2), 2)])));
    assert!(!first.same_as(&frame(&[(1, (1, 0), 1), (2, (2, 2), 2)])));
    assert!(!first.same_as(&frame(&[(1, (0, 1), 1), (2, (2, 2), 2)])));
    assert!(Keyframe::new().same_as(&Keyframe::new()));
}
