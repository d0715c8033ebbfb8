use sai3_bench::cli::{fmt_bytes, fmt_latency_ns, fmt_latency_us};
use sai3_bench::constants::{format_bytes_binary, format_bytes_decimal, GB, GIB, KB, KIB, MB, MIB, TB, TIB};

#[test]
fn test_format_bytes_binary() {
    assert_eq!(format_bytes_binary(0), "0 B");
    assert_eq!(format_bytes_binary(512), "512 B");
    assert_eq!(format_bytes_binary(1024), "1.00 KiB");
    assert_eq!(format_bytes_binary(1536), "1.50 KiB");
    assert_eq!(format_bytes_binary(1_048_576), "1.00 MiB");
    assert_eq!(format_bytes_binary(1_073_741_824), "1.00 GiB");
}

fn ref_binary(bytes: u64) -> String {
    if bytes >= TIB {
        format!("{:.2} TiB", bytes as f64 / TIB as f64)
    } else if bytes >= GIB {
        format!("{:.2} GiB", bytes as f64 / GIB as f64)
    } else if bytes >= MIB {
        format!("{:.2} MiB", bytes as f64 / MIB as f64)
    } else if bytes >= KIB {
        format!("{:.2} KiB", bytes as f64 / KIB as f64)
    } else {
        format!("{} B", bytes)
    }
}

fn ref_decimal(bytes: u64) -> String {
    if bytes >= TB {
        format!("{:.2} TB", bytes as f64 / TB as f64)
    } else if bytes >= GB {
        format!("{:.2} GB", bytes as f64 / GB as f64)
    } else if bytes >= MB {
        format!("{:.2} MB", bytes as f64 / MB as f64)
    } else if bytes >= KB {
        format!("{:.2} KB", bytes as f64 / KB as f64)
    } else {
        format!("{} B", bytes)
    }
}

fn ref_lat_f(value: f64, unit: &str) -> String {
    let decimals = if value < 10.0 {
        4
    } else if value < 100.0 {
        3
    } else if value < 1_000.0 {
        2
    } else {
        1
    };
    let s = format!("{:.prec$}", value, prec = decimals);
    let dot = s.find('.').unwrap_or(s.len());
    let int_part = &s[..dot];
    let frac_part = &s[dot..];
    if int_part.len() == 4 {
        format!("{},{}{}{}", &int_part[..1], &int_part[1..], frac_part, unit)
    } else {
        format!("{}{}{}", int_part, frac_part, unit)
    }
}

fn commas(n: u64) -> String {
    let s = n.to_string();
    let mut out = String::new();
    for (i, c) in s.chars().enumerate() {
        if i > 0 && (s.len() - i) % 3 == 0 {
            out.push(',');
        }
        out.push(c);
    }
    out
}

fn ref_latency_ns(ns: u64) -> String {
    if ns < 10_000 {
        format!("{}ns", commas(ns))
    } else if ns < 10_000_000 {
        ref_lat_f(ns as f64 / 1_000.0, "µs")
    } else if ns < 10_000_000_000 {
        ref_lat_f(ns as f64 / 1_000_000.0, "ms")
    } else {
        ref_lat_f(ns as f64 / 1_000_000_000.0, "s")
    }
}

fn ref_latency_us(us: u64) -> String {
    if us < 10_000 {
        format!("{}µs", commas(us))
    } else if us < 10_000_000 {
        ref_lat_f(us as f64 / 1_000.0, "ms")
    } else {
        ref_lat_f(us as f64 / 1_000_000.0, "s")
    }
}

fn ref_bytes(bytes: u64) -> String {
    if bytes < 10_000 {
        format!("{} bytes", commas(bytes))
    } else if bytes < 10_000 * KIB {
        ref_lat_f(bytes as f64 / KIB as f64, "KiB")
    } else if bytes < 10_000 * MIB {
        ref_lat_f(bytes as f64 / MIB as f64, "MiB")
    } else if bytes < 10_000 * GIB {
        ref_lat_f(bytes as f64 / GIB as f64, "GiB")
    } else {
        ref_lat_f(bytes as f64 / TIB as f64, "TiB")
    }
}

fn samples() -> Vec<u64> {
    let mut v: Vec<u64> = vec![
        0, 1, 999, 1000, 1005, 1015, 1023, 1024, 1025, 1152, 1536, 9999, 10_000, 10_005, 99_995,
        99_999, 100_005, 100_015, 999_999, 1_000_000, 1_048_575, 1_048_576, 9_999_999,
        10_000_000, 123_456_789, 999_999_999, 1_000_000_000, 9_999_999_999, 10_000_000_000,
        1_099_511_627_775, 1_099_511_627_776, 1_500_000_000_000, (1u64 << 53) - 1, 1u64 << 53,
        (1u64 << 53) + 1, (1u64 << 60) + 12345, u64::MAX - 1, u64::MAX,
    ];
    let mut x: u64 = 0x9E37_79B9_7F4A_7C15;
    for _ in 0..3000 {
        x ^= x << 13;
        x ^= x >> 7;
        x ^= x << 17;
        let shift = (x % 64) as u32;
        v.push(x >> shift);
    }
    for k in 0..2000u64 {
        v.push(1024 + k * 128);
        v.push(1_000 + k * 5);
        v.push(10_000 + k * 5);
    }
    v
}

#[test]
fn binary_sizes_match_floating_point_formatting() {
    for b in samples() {
        assert_eq!(format_bytes_binary(b), ref_binary(b), "bytes = {}", b);
    }
}

#[test]
fn decimal_sizes_match_floating_point_formatting() {
    assert_eq!(format_bytes_decimal(1500), "1.50 KB");
    assert_eq!(format_bytes_decimal(999), "999 B");
    for b in samples() {
        assert_eq!(format_bytes_decimal(b), ref_decimal(b), "bytes = {}", b);
    }
}

#[test]
fn latencies_match_floating_point_formatting() {
    assert_eq!(fmt_latency_ns(9_999), "9,999ns");
    assert_eq!(fmt_latency_ns(12_345), "12.345µs");
    assert_eq!(fmt_latency_ns(1_234_567), "1,234.6µs");
    assert_eq!(fmt_latency_us(1_500), "1,500µs");
    assert_eq!(fmt_latency_us(2_500_000), "2,500.0ms");
    for n in samples() {
        assert_eq!(fmt_latency_ns(n), ref_latency_ns(n), "ns = {}", n);
        assert_eq!(fmt_latency_us(n), ref_latency_us(n), "us = {}", n);
        assert_eq!(fmt_bytes(n), ref_bytes(n), "bytes = {}", n);
    }
}
