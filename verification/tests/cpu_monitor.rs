use sai3_bench::cpu_monitor::{CpuDeltas, CpuMonitor, CpuSample, CpuStatError, CpuTime};

const STAT: &str = "cpu  100 5 50 1000 20 3 2 1 0 0\ncpu0 1 2 3 4 5 6 7 8\n";

#[test]
fn parse_cpu_line() {
    let t = CpuTime::parse_proc_stat(STAT).unwrap();
    assert_eq!((t.user, t.nice, t.system, t.idle, t.iowait, t.irq, t.softirq, t.steal), (100, 5, 50, 1000, 20, 3, 2, 1));
    assert_eq!(t.total(), 1181);
    let t = CpuTime::parse_proc_stat("cpu 1 2 3 4 5 6 7 8\r\n").unwrap();
    assert_eq!(t.steal, 8);
}

#[test]
fn parse_errors() {
    assert_eq!(CpuTime::parse_proc_stat("").unwrap_err(), CpuStatError::Empty);
    assert_eq!(CpuTime::parse_proc_stat("intr 1 2\n").unwrap_err(), CpuStatError::InvalidFormat);
    assert_eq!(CpuTime::parse_proc_stat("cpu 1 2 3\n").unwrap_err(), CpuStatError::InsufficientFields);
    let e = CpuTime::parse_proc_stat("cpu 1 2 x 4 5 6 7 8").unwrap_err();
    assert_eq!(e, CpuStatError::InvalidField(3));
    assert_eq!(e.message(), "Invalid system time");
    assert_eq!(CpuStatError::Empty.message(), "Empty /proc/stat");
}

#[test]
fn monitor_steps() {
    let t0 = CpuTime::parse_proc_stat("cpu 100 0 100 800 0 0 0 0").unwrap();
    let t1 = CpuTime::parse_proc_stat("cpu 150 10 120 900 20 0 0 0").unwrap();
    let mut m = CpuMonitor::new(0);
    assert_eq!(m.sample(0, t0), CpuSample::Baseline);
    assert_eq!(m.sample(100_000_000, t1), CpuSample::TooSoon);
    let expected = CpuDeltas { user: 60, system: 20, iowait: 20, total: 200 };
    assert_eq!(m.sample_now(100_000_000, t1), CpuSample::Measured(expected));
    assert_eq!(m.sample(500_000_000, t1), CpuSample::TooSoon);
    assert_eq!(m.sample(899_999_999, t1), CpuSample::TooSoon);
    assert_eq!(m.sample(900_000_000, t1), CpuSample::Idle);
    assert_eq!(CpuDeltas::between(&t0, &t1), CpuDeltas { user: 0, system: 0, iowait: 0, total: 0 });
}
