use resource_tracker::cgroup::{
    cfs_quota_paths, cpuacct_usage_paths, detect_cfs_quota, detect_cpu_source, effective_cores,
    read_cgroup_usage_secs, read_cgroupv1_usage_ns, read_cgroupv2_usage_usec, CfsQuota, CpuSource,
    CPU_MAX_PATH, CPU_STAT_PATH,
};
use resource_tracker::number::Number;

fn file(text: &str) -> Option<String> {
    Some(text.to_string())
}

fn float(n: Number) -> f64 {
    f64::from_bits(n.to_bits())
}

fn num(x: f64) -> Number {
    Number::from_bits(x.to_bits())
}

fn quota(text: &str) -> Option<f64> {
    detect_cfs_quota(&file(text), &vec![]).max_cores.map(float)
}

#[test]
fn unified_hierarchy_is_preferred() {
    let stat = file("usage_usec 100\nuser_usec 60\n");
    assert_eq!(detect_cpu_source(&stat, &vec![file("1")]), CpuSource::CgroupV2);
    assert_eq!(detect_cpu_source(&file("nr_periods 0\n"), &vec![None, file("1")]), CpuSource::CgroupV1);
    assert_eq!(detect_cpu_source(&None, &vec![None, None, file("")]), CpuSource::CgroupV1);
    assert_eq!(detect_cpu_source(&None, &vec![None, None, None]), CpuSource::ProcStat);
    assert!(CpuSource::CgroupV2.is_cgroup());
    assert!(CpuSource::CgroupV1.is_cgroup());
    assert!(!CpuSource::ProcStat.is_cgroup());
}

#[test]
fn quota_of_the_unified_hierarchy() {
    assert_eq!(quota("100000 100000\n"), Some(1.0));
    assert_eq!(quota("150000 100000\n"), Some(1.5));
    assert_eq!(quota("1.5 1\n"), Some(1.5));
    assert_eq!(quota("-1 100000\n"), Some(-0.00001));
    assert_eq!(quota("max 100000\n"), None);
    assert_eq!(quota("100000\n"), None);
    assert_eq!(quota("100000 0\n"), None);
    assert_eq!(quota("100000 x\n"), None);
    assert_eq!(quota("1 2 3\n"), None);
    assert_eq!(quota(""), None);
}

#[test]
fn quotas_may_have_fractions_and_exponents() {
    assert_eq!(quota("1e5 100000\n"), Some(1.0));
    assert_eq!(quota("1.5E+2 +1e-1\n"), Some(1500.0));
    assert_eq!(quota("5. .5"), Some(10.0));
    assert_eq!(quota("0.0000000000000000000000001 1"), Some(1e-25));
    assert_eq!(quota("18446744073709551616 2"), Some(9223372036854775808.0));
    assert_eq!(quota("0e999999999999999999999999999999999999999999 7"), Some(0.0));
    for wrong in [".", "e5", "1e", "1e+", "1e5e5", "1.2.3", "1e1.5", "+", "--1", "0x10", "1_000"] {
        assert_eq!(quota(&format!("{wrong} 100000")), None, "{wrong}");
        assert_eq!(quota(&format!("100000 {wrong}")), None, "{wrong}");
        assert!(wrong.parse::<f64>().is_err());
    }
}

#[test]
fn quotas_need_not_be_finite() {
    assert_eq!(quota("inf 100000"), Some(f64::INFINITY));
    assert_eq!(quota("+Infinity 100000"), Some(f64::INFINITY));
    assert_eq!(quota("-INF 1"), Some(f64::NEG_INFINITY));
    assert!(quota("nan 100000").unwrap().is_nan());
    assert!(quota("inf inf").unwrap().is_nan());
    assert_eq!(quota("100000 inf"), Some(0.0));
    assert_eq!(quota("100000 -inf"), None);
    assert_eq!(quota("100000 nan"), None);
    assert_eq!(quota("1e99999999999999999999999999 100000"), Some(f64::INFINITY));
    assert_eq!(quota("1e300 1"), Some(1e300));
    assert_eq!(quota("1e-300 1"), Some(1e-300));
    assert_eq!(quota("1 1e-400"), None);
    assert_eq!(quota("1 1e-99999999999999999999999999"), None);
    assert_eq!(quota("1 5e-324"), Some(f64::INFINITY));
}

/// A numeral is the double that the standard library reads.
#[test]
fn numerals_are_read_as_doubles() {
    let mut texts: Vec<String> = [
        "1.7976931348623157e308",
        "1.7976931348623158e308",
        "179769313486231580793728971405301e276",
        "1.797693134862315807e308",
        "1.797693134862315808e308",
        "1.7976931348623159e308",
        "1e309",
        "5e-324",
        "3e-324",
        "2.4703282292062328e-324",
        "2.4703282292062327e-324",
        "2e-324",
        "2.2250738585072011e-308",
        "2.2250738585072014e-308",
        "9007199254740993",
        "9007199254740992.99999999999999999999999999",
        "9007199254740993.00000000000000000000000001",
        "0.1",
        "1e23",
        "8.5e22",
        "33333.333333333333333333333333333333333333333333",
        "123456789012345678901234567890",
        "0.00000000000000000000123e25",
        "6.0221407600e+23",
        "1000000000000000000000000000000000000000000000000000000000000000000000e-60",
        "-0",
        "-12.5E-3",
    ]
    .iter()
    .map(|s| s.to_string())
    .collect();
    let mut seed: u64 = 0x2545_f491_4f6c_dd1d;
    for i in 0..150u64 {
        seed ^= seed << 13;
        seed ^= seed >> 7;
        seed ^= seed << 17;
        texts.push(format!("{}.{}e{}", seed >> 20, seed & 0xffff_ffff, (i as i64 - 75) * 4));
        texts.push(format!("{:e}", f64::from_bits(seed & 0x7fdf_ffff_ffff_ffff)));
    }
    for s in &texts {
        let x: f64 = s.parse().unwrap();
        assert_eq!(quota(&format!("{s} 1")).map(f64::to_bits), Some(x.to_bits()), "{s}");
        let y = if x > 0.0 { Some((7.0 / x).to_bits()) } else { None };
        assert_eq!(quota(&format!("7 {s}")).map(f64::to_bits), y, "{s}");
    }
}

#[test]
fn quota_falls_back_to_the_controller_files() {
    let pairs = vec![
        (file("-1\n"), file("100000\n")),
        (None, file("100000\n")),
        (file("50000\n"), file("100000\n")),
        (file("70000\n"), file("100000\n")),
    ];
    let half = Some(num(0.5));
    assert_eq!(detect_cfs_quota(&None, &pairs).max_cores, half);
    assert_eq!(detect_cfs_quota(&file("max 100000\n"), &pairs).max_cores, half);
    assert_eq!(
        detect_cfs_quota(&file("200000 100000\n"), &pairs).max_cores,
        Some(num(2.0))
    );
    assert_eq!(detect_cfs_quota(&None, &vec![]).max_cores, None);
}

#[test]
fn effective_cores_are_the_smaller_of_machine_and_quota() {
    let two = CfsQuota { max_cores: Some(num(2.0)) };
    assert_eq!(float(effective_cores(8, &two)), 2.0);
    assert_eq!(float(effective_cores(1, &two)), 1.0);
    let any = CfsQuota { max_cores: Some(num(f64::NAN)) };
    assert_eq!(float(effective_cores(8, &any)), 8.0);
    let unlimited = CfsQuota { max_cores: None };
    assert_eq!(float(effective_cores(8, &unlimited)), 8.0);
}

#[test]
fn usage_is_read_from_the_right_line() {
    let stat = file("nr_periods 5\nusage_usec 123456\nuser_usec 100\n");
    assert_eq!(read_cgroupv2_usage_usec(&stat), Some(123456));
    assert_eq!(read_cgroupv2_usage_usec(&file("usage_usec 7\r\n")), Some(7));
    assert_eq!(read_cgroupv2_usage_usec(&file("usage_usec +7\n")), Some(7));
    assert_eq!(read_cgroupv2_usage_usec(&file("usage_usec x\nusage_usec 7\n")), None);
    assert_eq!(read_cgroupv2_usage_usec(&file("user_usec 7\n")), None);
    assert_eq!(read_cgroupv2_usage_usec(&None), None);
    assert_eq!(read_cgroupv1_usage_ns(&vec![None, file("x"), file(" 42\n"), file("43")]), Some(42));
    assert_eq!(read_cgroupv1_usage_ns(&vec![file("18446744073709551616")]), None);
}

#[test]
fn usage_comes_from_the_detected_source() {
    let stat = file("usage_usec 5\n");
    let acct = vec![file("900\n")];
    let secs = |source| read_cgroup_usage_secs(source, &stat, &acct).map(float);
    assert_eq!(secs(CpuSource::CgroupV2), Some(5.0 / 1_000_000.0));
    assert_eq!(secs(CpuSource::CgroupV1), Some(900.0 / 1_000_000_000.0));
    assert_eq!(secs(CpuSource::ProcStat), None);
}

#[test]
fn paths_are_where_the_kernel_mounts_them() {
    assert_eq!(CPU_STAT_PATH, "/sys/fs/cgroup/cpu.stat");
    assert_eq!(CPU_MAX_PATH, "/sys/fs/cgroup/cpu.max");
    assert_eq!(cpuacct_usage_paths()[1], "/sys/fs/cgroup/cpu,cpuacct/cpuacct.usage");
    assert_eq!(cpuacct_usage_paths().len(), 3);
    assert_eq!(
        cfs_quota_paths()[0],
        ("/sys/fs/cgroup/cpu/cpu.cfs_quota_us", "/sys/fs/cgroup/cpu/cpu.cfs_period_us")
    );
    assert_eq!(cfs_quota_paths().len(), 3);
}
