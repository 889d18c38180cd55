use rgraph::index::latch::{LatchCoupling, LatchMode};

#[test]
fn exclusive_blocks_exclusive() {
    let mut latch = LatchCoupling::new();
    let g1 = latch.latch(1, LatchMode::Exclusive).unwrap();
    assert_eq!(g1.page_id, 1);
    assert_eq!(g1.mode, LatchMode::Exclusive);
    assert!(latch.latch(1, LatchMode::Exclusive).is_none());
    latch.release(g1);
    let g2 = latch.latch(1, LatchMode::Exclusive).unwrap();
    assert_eq!(g2.page_id, 1);
}

#[test]
fn shared_allows_shared() {
    let mut latch = LatchCoupling::new();
    let g1 = latch.latch(1, LatchMode::Shared).unwrap();
    let g2 = latch.latch(1, LatchMode::Shared).unwrap();
    latch.release(g1);
    latch.release(g2);
}

#[test]
fn exclusive_blocks_shared() {
    let mut latch = LatchCoupling::new();
    let g = latch.latch(2, LatchMode::Exclusive).unwrap();
    assert!(latch.latch(2, LatchMode::Shared).is_none());
    latch.release(g);
    let g2 = latch.latch(2, LatchMode::Shared).unwrap();
    latch.release(g2);
}

#[test]
fn intention_allows_shared() {
    let mut latch = LatchCoupling::new();
    let g1 = latch.latch(3, LatchMode::Intention).unwrap();
    let g2 = latch.latch(3, LatchMode::Shared).unwrap();
    latch.release(g1);
    latch.release(g2);
}

#[test]
fn intention_blocks_exclusive() {
    let mut latch = LatchCoupling::new();
    let g1 = latch.latch(4, LatchMode::Intention).unwrap();
    assert!(latch.latch(4, LatchMode::Exclusive).is_none());
    latch.release(g1);
    let g2 = latch.latch(4, LatchMode::Exclusive).unwrap();
    latch.release(g2);
}

#[test]
fn version_bumps_on_exclusive_release() {
    let mut latch = LatchCoupling::new();
    let v0 = latch.version(7);
    let g = latch.latch(7, LatchMode::Exclusive).unwrap();
    // The version does not change while the latch is held.
    assert_eq!(latch.version(7), v0);
    assert!(latch.is_write_latched(7));
    latch.release(g);
    // After the release it has advanced.
    assert!(latch.version(7) > v0);
    assert!(!latch.is_write_latched(7));
}

#[test]
fn shared_release_does_not_bump_version() {
    let mut latch = LatchCoupling::new();
    let g = latch.latch(9, LatchMode::Exclusive).unwrap();
    latch.release(g);
    let v = latch.version(9);
    let g = latch.latch(9, LatchMode::Shared).unwrap();
    latch.release(g);
    assert_eq!(latch.version(9), v, "reads must not bump the version");
}

#[test]
fn pages_are_latched_apart() {
    let mut latch = LatchCoupling::default();
    let _g = latch.latch(1, LatchMode::Exclusive).unwrap();
    assert!(latch.latch(2, LatchMode::Exclusive).is_some());
    assert_eq!(latch.version(3), 0);
}

#[test]
fn every_intention_guard_counts() {
    let mut latch = LatchCoupling::new();
    let g1 = latch.latch(5, LatchMode::Intention).unwrap();
    let g2 = latch.latch(5, LatchMode::Intention).unwrap();
    latch.release(g1);
    // The second guard is still alive.
    assert!(latch.latch(5, LatchMode::Exclusive).is_none());
    latch.release(g2);
    let g = latch.latch(5, LatchMode::Exclusive).unwrap();
    assert!(latch.latch(5, LatchMode::Intention).is_none());
    latch.release(g);
}

#[test]
fn exclusive_waits_for_guards_of_every_mode() {
    let mut latch = LatchCoupling::new();
    let shared = latch.latch(6, LatchMode::Shared).unwrap();
    let intention = latch.latch(6, LatchMode::Intention).unwrap();
    latch.release(intention);
    assert!(latch.latch(6, LatchMode::Exclusive).is_none());
    latch.release(shared);
    assert!(latch.latch(6, LatchMode::Exclusive).is_some());
}
