use osm_gpui::idle_tracker::IdleTracker;

#[test]
fn new_tracker_is_idle() {
    assert!(IdleTracker::new().is_idle());
}

#[test]
fn tile_fetch_toggles_idle() {
    let mut t = IdleTracker::new();
    t.tile_fetch_started();
    assert!(!t.is_idle());
    t.tile_fetch_finished();
    assert!(t.is_idle());
}

#[test]
fn image_decode_toggles_idle() {
    let mut t = IdleTracker::new();
    t.image_decode_started();
    assert!(!t.is_idle());
    t.image_decode_finished();
    assert!(t.is_idle());
}

#[test]
fn both_counters_must_be_zero() {
    let mut t = IdleTracker::new();
    t.tile_fetch_started();
    t.image_decode_started();
    t.tile_fetch_finished();
    assert!(!t.is_idle());
    t.image_decode_finished();
    assert!(t.is_idle());
}

#[test]
fn balanced_starts_and_finishes_return_to_idle() {
    let mut t = IdleTracker::new();
    for _ in 0..1000 {
        t.tile_fetch_started();
    }
    for _ in 0..1000 {
        assert!(!t.is_idle());
        t.tile_fetch_finished();
    }
    assert!(t.is_idle());
}
