use jmon::model::{History, StatsSnapshot};

fn ram_sample(used: u64) -> StatsSnapshot {
    let mut s = StatsSnapshot::default();
    s.ram_used_mb = Some(used);
    s.ram_total_mb = Some(1000);
    s
}

#[test]
fn new_history_is_empty() {
    let h = History::new(120);
    assert!(h.cpu_total.is_empty());
    assert!(h.ram_used.is_empty());
    assert!(h.gpu_util.is_empty());
    assert!(h.power_total.is_empty());
}

#[test]
fn fifo_window_keeps_latest_values_in_order() {
    let mut h = History::new(3);
    for used in 1..=5u64 {
        h.push(&ram_sample(used));
    }
    let series: Vec<u64> = h.ram_used.iter().copied().collect();
    assert_eq!(series, vec![3, 4, 5]);
    assert_eq!(h.ram_used.len(), 3);
}

#[test]
fn absent_metrics_do_not_insert_placeholders() {
    let mut h = History::new(10);
    h.push(&ram_sample(7));
    assert_eq!(h.ram_used.len(), 1);
    assert_eq!(h.cpu_total.len(), 0);
    assert_eq!(h.gpu_util.len(), 0);
    assert_eq!(h.power_total.len(), 0);
}

#[test]
fn percentages_are_rounded_and_clamped() {
    let mut h = History::new(10);
    let mut s = StatsSnapshot::default();
    // one core at 0.5%: rounds up to 1
    s.cpu_cores = vec![500];
    // 99.6%: rounds to 100
    s.gpu_util = Some(99_600);
    h.push(&s);
    let mut s2 = StatsSnapshot::default();
    // 200%: clamped to 100
    s2.gpu_util = Some(200_000);
    h.push(&s2);
    assert_eq!(h.cpu_total.iter().copied().collect::<Vec<u64>>(), vec![1]);
    assert_eq!(
        h.gpu_util.iter().copied().collect::<Vec<u64>>(),
        vec![100, 100]
    );
}

#[test]
fn zero_capacity_keeps_series_empty() {
    // the bound holds for every capacity: at zero nothing is kept
    let mut h = History::new(0);
    h.push(&ram_sample(1));
    h.push(&ram_sample(2));
    assert!(h.ram_used.is_empty());
    assert!(h.cpu_total.is_empty());
}

#[test]
fn reset_clears_every_series() {
    let mut h = History::new(4);
    for used in 0..6u64 {
        h.push(&ram_sample(used));
    }
    h.reset();
    assert!(h.cpu_total.is_empty());
    assert!(h.ram_used.is_empty());
    assert!(h.gpu_util.is_empty());
    assert!(h.power_total.is_empty());
    // reading again changes nothing
    assert!(h.ram_used.is_empty());
}
