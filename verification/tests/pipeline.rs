use jmon::model::{AppState, HoverTarget, StatsSnapshot};
use jmon::pipeline::{
    apply_restart_failure, apply_restart_success, clamp_interval, ingest_primary,
    ingest_secondary, next_interval, restart_needed,
};

fn ram_sample(used: u64) -> StatsSnapshot {
    let mut s = StatsSnapshot::default();
    s.ram_used_mb = Some(used);
    s.ram_total_mb = Some(1000);
    s
}

#[test]
fn new_app_state() {
    let app = AppState::new(1000, 120);
    assert!(app.latest.is_none());
    assert_eq!(app.interval_ms, 1000);
    assert!(!app.show_help);
    assert!(app.error.is_none());
    assert!(app.buttons.minus.is_none());
    assert!(app.buttons.plus.is_none());
    assert_eq!(app.hover, HoverTarget::Idle);
}

#[test]
fn drains_keep_only_the_newest_sample() {
    let mut app = AppState::new(1000, 120);
    let drained = vec![ram_sample(1), ram_sample(2), ram_sample(3)];
    ingest_primary(&mut app, drained, None);
    // exactly the third sample survives; the first two never reach
    // the history
    assert_eq!(app.latest.as_ref().unwrap().ram_used_mb, Some(3));
    let series: Vec<u64> = app.history.ram_used.iter().copied().collect();
    assert_eq!(series, vec![3]);
}

#[test]
fn empty_drain_changes_nothing() {
    let mut app = AppState::new(1000, 120);
    ingest_primary(&mut app, Vec::new(), Some(10_000));
    assert!(app.latest.is_none());
    assert!(app.history.ram_used.is_empty());
}

#[test]
fn secondary_reading_overlays_gpu_util() {
    let mut app = AppState::new(1000, 120);
    let mut sample = ram_sample(5);
    sample.gpu_util = Some(33_000);
    // the cached secondary value overwrites the report's own reading
    ingest_primary(&mut app, vec![sample], Some(77_000));
    assert_eq!(app.latest.as_ref().unwrap().gpu_util, Some(77_000));
    // with no cached value the overlay clears the field
    let mut sample2 = ram_sample(6);
    sample2.gpu_util = Some(10_000);
    ingest_primary(&mut app, vec![sample2], None);
    assert_eq!(app.latest.as_ref().unwrap().gpu_util, None);
}

#[test]
fn secondary_drain_patches_latest_in_place() {
    let mut app = AppState::new(1000, 120);
    ingest_primary(&mut app, vec![ram_sample(5)], None);
    let cached = ingest_secondary(&mut app, &vec![10_000, 20_000], None);
    assert_eq!(cached, Some(20_000));
    assert_eq!(app.latest.as_ref().unwrap().gpu_util, Some(20_000));
    // history is untouched by secondary readings
    assert!(app.history.gpu_util.is_empty());
}

#[test]
fn secondary_drain_without_readings_keeps_cache() {
    let mut app = AppState::new(1000, 120);
    let cached = ingest_secondary(&mut app, &Vec::new(), Some(42_000));
    assert_eq!(cached, Some(42_000));
    assert!(app.latest.is_none());
}

#[test]
fn interval_clamping() {
    assert_eq!(clamp_interval(100), 250);
    assert_eq!(clamp_interval(250), 250);
    assert_eq!(clamp_interval(1000), 1000);
    assert_eq!(clamp_interval(5000), 5000);
    assert_eq!(clamp_interval(6000), 5000);
}

#[test]
fn interval_deltas() {
    assert_eq!(next_interval(1000, 250), 1250);
    assert_eq!(next_interval(1000, -250), 750);
    assert_eq!(next_interval(250, -250), 250);
    assert_eq!(next_interval(5000, 250), 5000);
    assert_eq!(next_interval(400, -250), 250);
    // a result below the floor is re-clamped even for a zero delta
    assert_eq!(next_interval(100, 0), 250);
}

#[test]
fn restart_only_when_interval_differs() {
    assert!(!restart_needed(1000, 1000));
    assert!(restart_needed(1000, 1250));
}

#[test]
fn failed_restart_keeps_interval_and_records_error() {
    let mut app = AppState::new(1000, 120);
    ingest_primary(&mut app, vec![ram_sample(9)], None);
    apply_restart_failure(&mut app, "failed to start tegrastats".to_string());
    assert_eq!(app.interval_ms, 1000);
    let err = app.error.as_ref().expect("error message");
    assert!(!err.is_empty());
    // sample state is untouched
    assert_eq!(app.latest.as_ref().unwrap().ram_used_mb, Some(9));
    assert_eq!(app.history.ram_used.len(), 1);
}

#[test]
fn successful_restart_adopts_interval_and_clears_error() {
    let mut app = AppState::new(1000, 120);
    apply_restart_failure(&mut app, "first failure".to_string());
    apply_restart_success(&mut app, 1250);
    assert_eq!(app.interval_ms, 1250);
    assert!(app.error.is_none());
}
