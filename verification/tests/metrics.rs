use jmon::model::{PowerRail, StatsSnapshot};

fn snapshot() -> StatsSnapshot {
    StatsSnapshot::default()
}

fn rail(name: &str, current_mw: u64) -> PowerRail {
    PowerRail {
        name: name.to_string(),
        current_mw,
        average_mw: current_mw,
    }
}

#[test]
fn default_snapshot_is_empty() {
    let s = snapshot();
    assert!(s.cpu_cores.is_empty());
    assert_eq!(s.ram_used_mb, None);
    assert_eq!(s.ram_total_mb, None);
    assert_eq!(s.swap_used_mb, None);
    assert_eq!(s.swap_total_mb, None);
    assert_eq!(s.gpu_util, None);
    assert_eq!(s.emc_util, None);
    assert!(s.temps.is_empty());
    assert!(s.power_rails.is_empty());
}

#[test]
fn cpu_total_averages_cores() {
    let mut s = snapshot();
    assert_eq!(s.cpu_total(), None);
    s.cpu_cores = vec![0, 1000];
    assert_eq!(s.cpu_total(), Some(500));
    s.cpu_cores = vec![10_000, 20_000, 30_000];
    assert_eq!(s.cpu_total(), Some(20_000));
}

#[test]
fn ram_percent_formula() {
    let mut s = snapshot();
    assert_eq!(s.ram_percent(), None);
    s.ram_used_mb = Some(17_842);
    assert_eq!(s.ram_percent(), None);
    s.ram_total_mb = Some(125_772);
    // 17842 / 125772 = 14.1859...% -> 14185 thousandths (truncating)
    assert_eq!(s.ram_percent(), Some(14_185));
    s.ram_total_mb = Some(0);
    assert_eq!(s.ram_percent(), None);
}

#[test]
fn total_power_excludes_vin_when_another_rail_exists() {
    let mut s = snapshot();
    assert_eq!(s.total_power_mw(), None);
    s.power_rails = vec![rail("VDD_GPU", 100), rail("VIN", 5000), rail("VDD_CPU", 200)];
    assert_eq!(s.total_power_mw(), Some(300));
}

#[test]
fn total_power_counts_vin_alone() {
    let mut s = snapshot();
    s.power_rails = vec![rail("VIN", 5000)];
    assert_eq!(s.total_power_mw(), Some(5000));
    s.power_rails = vec![rail("VIN", 5000), rail("VIN", 700)];
    assert_eq!(s.total_power_mw(), Some(5700));
}
