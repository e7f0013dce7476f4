use resource_tracker::cpu_time::{
    aggregate_util_cores, core_util_pct, cpu_idle, cpu_total, steal_util_pct, util_pct_from_ticks,
    CpuTime,
};
use resource_tracker::number::Number;

fn float(r: Number) -> f64 {
    f64::from_bits(r.to_bits())
}

fn busy(user: u64, idle: u64) -> CpuTime {
    CpuTime {
        user,
        nice: 0,
        system: 0,
        idle,
        iowait: None,
        irq: None,
        softirq: None,
        steal: None,
    }
}

#[test]
fn test_util_pct_all_idle_is_zero() {
    // All new ticks went to idle.
    assert_eq!(float(util_pct_from_ticks(0, 0, 1600, 1600)), 0.0);
}

#[test]
fn test_util_pct_fully_busy_is_100() {
    // 1600 new ticks, 0 idle -> 100%.
    let pct = float(util_pct_from_ticks(0, 0, 1600, 0));
    assert!((pct - 100.0).abs() < 0.01, "expected 100.0, got {pct}");
}

#[test]
fn test_util_pct_half_busy_is_50() {
    // 1600 new ticks, 800 idle -> 50%.
    let pct = float(util_pct_from_ticks(0, 0, 1600, 800));
    assert!((pct - 50.0).abs() < 0.01, "expected 50.0, got {pct}");
}

#[test]
fn test_util_pct_no_delta_is_zero() {
    // Identical snapshots: no elapsed ticks.
    assert_eq!(float(util_pct_from_ticks(100, 50, 100, 50)), 0.0);
}

#[test]
fn test_aggregate_util_cores_no_clamp() {
    // 999 active ticks, 1 idle, total 1000 -> 99.9% -> 99.9/100*4 = 3.996
    let pct = float(util_pct_from_ticks(0, 0, 1000, 1));
    let cores = pct / 100.0 * 4.0_f64;
    assert!(cores > 3.9, "expected close to 4.0, got {cores}");
    assert!(
        cores < 4.05,
        "should not greatly exceed n_cores, got {cores}"
    );
    let direct = float(aggregate_util_cores(&busy(0, 0), &busy(999, 1), 4));
    assert_eq!(direct, cores);
}

#[test]
fn test_util_pct_raw_is_not_clamped() {
    // 100% busy -- raw result is exactly 100, clamp has no effect here.
    let raw = float(util_pct_from_ticks(0, 0, 1000, 0));
    assert!((raw - 100.0).abs() < 0.01);
    // Apply clamp explicitly to show it would cap any value > 100.
    assert_eq!(raw.clamp(0.0, 100.0), 100.0);
}

#[test]
fn raw_percentage_is_negative_when_idle_outruns_total() {
    let raw = util_pct_from_ticks(0, 0, 100, 150);
    assert_eq!(float(raw), -50.0);
}

#[test]
fn core_percentage_is_clamped() {
    // The total moves by 10 ticks while idle moves by 30: user time went back.
    let prev = busy(40, 0);
    let curr = busy(20, 30);
    assert_eq!(float(core_util_pct(&prev, &curr)), 0.0);
    assert_eq!(float(aggregate_util_cores(&prev, &curr, 2)), -4.0);
}

#[test]
fn totals_cover_every_state() {
    let c = CpuTime {
        user: 1,
        nice: 2,
        system: 4,
        idle: 8,
        iowait: Some(16),
        irq: Some(32),
        softirq: Some(64),
        steal: Some(128),
    };
    assert_eq!(cpu_total(&c), 255);
    assert_eq!(cpu_idle(&c), 24);
    assert!(c.fits());
    let mut over = c;
    over.user = u64::MAX;
    assert!(!over.fits());
}

#[test]
fn stolen_time_is_a_share_of_all_time() {
    let prev = busy(0, 0);
    let mut curr = busy(60, 20);
    curr.steal = Some(20);
    assert_eq!(float(steal_util_pct(&prev, &curr)), 20.0);
    assert_eq!(float(steal_util_pct(&curr, &curr)), 0.0);
}

/// Every step is rounded as a double is.
#[test]
fn percentages_round_at_every_step() {
    let pct = |total: u64, idle: u64| (total as f64 - idle as f64) / total as f64 * 100.0;
    let mut seed: u64 = 0x2545_f491_4f6c_dd1d;
    for i in 0..2000u64 {
        seed ^= seed << 13;
        seed ^= seed >> 7;
        seed ^= seed << 17;
        let total = (seed >> (i % 60)) / 2 + 1;
        let idle = (seed >> (i % 50)) % (total + total / 4 + 1);
        let raw = float(util_pct_from_ticks(0, 0, total, idle));
        assert_eq!(raw.to_bits(), pct(total, idle).to_bits(), "{total} {idle}");
        if idle <= total {
            let curr = busy(total - idle, idle);
            let cores = float(aggregate_util_cores(&busy(0, 0), &curr, 7));
            assert_eq!(cores, pct(total, idle) / 100.0 * 7.0, "{total} {idle}");
            assert!(cores <= 7.0);
            let core = float(core_util_pct(&busy(0, 0), &curr));
            assert_eq!(core, pct(total, idle).clamp(0.0, 100.0), "{total} {idle}");
        }
    }
    assert_eq!(float(util_pct_from_ticks(0, 0, 3, 2)), 33.33333333333333);
    let cores = float(aggregate_util_cores(&busy(0, 0), &busy(200, 100), 3));
    assert_eq!(cores, 1.9999999999999996);
}
