use abyss_top::double::F64;
use abyss_top::figures::{fmt_bps, fmt_rw, number_text, tenths_chars, units_chars};
use abyss_top::float::{Float, Precision};
use abyss_top::rates::{elapsed, per_second, percent, seconds, used_percent, wait_percent};
use abyss_top::single::{mean_rounded, sum_rounded, F32};
use abyss_top::text;
use std::time::Duration;

/// A simple generator of numbers of all magnitudes.
fn numbers(count: usize) -> Vec<u64> {
    let mut x: u64 = 0x9e37_79b9_7f4a_7c15;
    let mut out = vec![
        0, 1, 2, 3, 9, 10, 99, 1023, 1024, 1025, 1535, 1536, 1_048_575, 1_048_576, 1_073_741_823,
        1_073_741_824, 9_007_199_254_740_991, 9_007_199_254_740_992, 9_007_199_254_740_993,
        u64::MAX - 1, u64::MAX, 1 << 63,
    ];
    for i in 0..count {
        x = x.wrapping_mul(6_364_136_223_846_793_005).wrapping_add(1_442_695_040_888_963_407);
        out.push((x ^ (x >> 29)) >> (i % 64));
    }
    out
}

fn value(f: Float) -> f64 {
    f.m as f64 * 2f64.powi(f.e)
}

fn f64_of(x: f64) -> F64 {
    F64 { bits: x.to_bits() }
}

fn string(c: Vec<char>) -> String {
    c.into_iter().collect()
}

fn shown(bps: u64) -> String {
    let b = bps as f64;
    if b < 1024.0 {
        format!("{:>6} B/s", bps)
    } else if b < 1024.0 * 1024.0 {
        format!("{:>5.1} KB/s", b / 1024.0)
    } else if b < 1024.0 * 1024.0 * 1024.0 {
        format!("{:>5.1} MB/s", b / (1024.0 * 1024.0))
    } else {
        format!("{:>5.1} GB/s", b / (1024.0 * 1024.0 * 1024.0))
    }
}

#[test]
fn per_second_handles_counter_reset() {
    assert_eq!(per_second(100, 500, f64_of(1.0)), 0);
    assert_eq!(per_second(2048, 1024, f64_of(1.0)), 1024);
    assert_eq!(per_second(2048, 1024, f64_of(0.5)), 2048);
}

#[test]
fn per_second_agrees_with_double_precision() {
    let deltas = numbers(300);
    let times = numbers(60);
    for &ns in &times {
        let dt = Duration::from_nanos(ns).as_secs_f64();
        assert_eq!(seconds(ns), f64_of(dt));
        let clamped = dt.max(1e-3);
        assert_eq!(elapsed(ns, 0), f64_of(clamped));
        for &d in &deltas {
            let want = (d as f64 / clamped).max(0.0) as u64;
            assert_eq!(per_second(d, 0, elapsed(ns, 0)), want, "{} {}", d, ns);
        }
    }
}

#[test]
fn per_second_without_time() {
    assert_eq!(per_second(5, 5, seconds(0)), 0);
    assert_eq!(per_second(6, 5, seconds(0)), u64::MAX);
    // The clock has gone back, or has hardly moved: a millisecond is taken.
    assert_eq!(per_second(1, 0, elapsed(0, 5)), 1000);
    assert_eq!(per_second(1, 0, elapsed(7, 7)), 1000);
    assert_eq!(per_second(u64::MAX, 0, elapsed(0, 0)), u64::MAX);
}

#[test]
fn per_second_over_any_time() {
    let mut times: Vec<f64> = vec![
        0.0, -0.0, 1.0, -1.0, 0.1, 1e-3, 1e-300, 5e-324, 2e-310, f64::MIN_POSITIVE, 1e300, f64::MAX,
        f64::MIN, f64::INFINITY, f64::NEG_INFINITY, f64::NAN, -f64::NAN,
    ];
    for n in numbers(300) {
        times.push(f64::from_bits(n));
        times.push(f64::from_bits(n ^ (n << 31)));
        times.push(n as f64 / 1e9);
    }
    let deltas = numbers(60);
    for &dt in &times {
        for &d in &deltas {
            let want = (d as f64 / dt).max(0.0) as u64;
            assert_eq!(per_second(d, 0, f64_of(dt)), want, "{} {:?}", d, dt);
        }
        assert_eq!(per_second(7, 7, f64_of(dt)), 0);
        assert_eq!(per_second(6, 7, f64_of(dt)), 0);
    }
}

#[test]
fn larger_counters_give_no_smaller_rates() {
    let mut counters = numbers(400);
    counters.sort();
    for dt in [5e-324, 1e-3, 0.1, 1.0, 3.7, 1e9] {
        for prev in [0u64, 1000, 1 << 53] {
            for pair in counters.windows(2) {
                let low = per_second(pair[0], prev, f64_of(dt));
                assert!(low <= per_second(pair[1], prev, f64_of(dt)));
            }
        }
    }
}

#[test]
fn one_second_gives_the_growth() {
    for n in [0u64, 1, 7, 4096, 9_007_199_254_740_991] {
        assert_eq!(per_second(n + 5, 5, seconds(1_000_000_000)), n);
    }
}

#[test]
fn integers_round_as_floats_do() {
    for n in numbers(3000) {
        assert_eq!(value(Float::from_int(n, Precision::Double)), n as f64);
        assert_eq!(value(Float::from_int(n, Precision::Single)), n as f32 as f64);
    }
}

#[test]
fn shares_agree_with_floating_point() {
    let ns = numbers(120);
    for &a in &ns {
        let want = ((a as f64 / 1e9) * 100.0).min(100.0) as f32;
        assert_eq!(value(wait_percent(a)), want as f64);
        for &b in &ns {
            if b > 0 {
                let want = (a as f64 / b as f64 * 100.0) as f32;
                assert_eq!(value(percent(a, b)), want as f64, "{} {}", a, b);
                let want = (a as f32 / b as f32) * 100.0;
                assert_eq!(value(used_percent(a, b)), want as f64, "{} {}", a, b);
            }
        }
    }
    assert_eq!(value(used_percent(5, 0)), 0.0);
}

#[test]
fn waiting_is_at_most_all_of_the_time() {
    assert_eq!(value(wait_percent(0)), 0.0);
    assert_eq!(value(wait_percent(250_000_000)), 25.0);
    assert_eq!(value(wait_percent(1_000_000_000)), 100.0);
    assert_eq!(value(wait_percent(1_000_000_001)), 100.0);
    assert_eq!(value(wait_percent(u64::MAX)), 100.0);
}

#[test]
fn comparisons_agree_with_floating_point() {
    for a in numbers(60) {
        for b in [1u64, 3, 7, 1000, 1 << 40] {
            let f = percent(a, b);
            for k in [0u32, 1, 5, 20, 40, 80, 100, u32::MAX] {
                assert_eq!(f.is_at_least(k), value(f) >= k as f64);
                assert_eq!(f.is_above(k), value(f) > k as f64);
            }
            assert_eq!(f.to_u64(), value(f) as u64);
        }
    }
    assert_eq!(Float { m: 1, e: 64 }.to_u64(), u64::MAX);
    assert_eq!(Float { m: 0, e: 64 }.to_u64(), 0);
    assert_eq!(Float { m: 3, e: -1 }.to_u64(), 1);
    assert_eq!(Float { m: u64::MAX, e: -1000 }.to_u64(), 0);
}

#[test]
fn fmt_bps_scales() {
    assert!(fmt_bps(0).contains("B/s"));
    assert!(fmt_bps(2048).contains("KB/s"));
    assert!(fmt_bps(5 * 1024 * 1024).contains("MB/s"));
    assert!(fmt_bps(3u64 * 1024 * 1024 * 1024).contains("GB/s"));
}

#[test]
fn fmt_bps_exact_texts() {
    assert_eq!(fmt_bps(0), "     0 B/s");
    assert_eq!(fmt_bps(1023), "  1023 B/s");
    assert_eq!(fmt_bps(1024), "  1.0 KB/s");
    assert_eq!(fmt_bps(1_048_575), "1024.0 KB/s");
    assert_eq!(fmt_bps(1_048_576), "  1.0 MB/s");
    assert_eq!(fmt_bps(1_073_741_824), "  1.0 GB/s");
    // A tie goes to the even digit.
    assert_eq!(fmt_bps(1024 + 256), "  1.2 KB/s");
    assert_eq!(fmt_bps(1024 + 768), "  1.8 KB/s");
    assert_eq!(fmt_bps(u64::MAX), "17179869184.0 GB/s");
    assert_eq!(fmt_rw(0, 2048), "     0 B/s /   2.0 KB/s");
}

#[test]
fn fmt_bps_agrees_with_the_standard_library() {
    for n in numbers(20_000) {
        assert_eq!(fmt_bps(n), shown(n));
    }
    for n in 0..20_000 {
        assert_eq!(fmt_bps(n), shown(n));
    }
}

#[test]
fn numbers_are_written_and_read_back() {
    for n in numbers(2000) {
        assert_eq!(number_text(n), n.to_string());
        let c: Vec<char> = number_text(n).chars().collect();
        assert_eq!(text::parse_u64(&c), Some(n));
    }
}

#[test]
fn rounded_texts_agree_with_the_standard_library() {
    for a in numbers(300) {
        for e in [-1100, -200, -130, -127, -126, -80, -60, -53, -30, -10, -3, -2, -1, 0, 1, 5, 30, 63] {
            let f = Float { m: a >> 11, e };
            assert_eq!(string(tenths_chars(f)), format!("{:.1}", value(f)), "{:?}", f);
            assert_eq!(string(units_chars(f)), format!("{:.0}", value(f)), "{:?}", f);
        }
    }
    let halves: [(u64, &str, &str); 5] =
        [(1, "0.5", "0"), (3, "1.5", "2"), (5, "2.5", "2"), (7, "3.5", "4"), (0, "0.0", "0")];
    for (m, one, none) in halves {
        assert_eq!(string(tenths_chars(Float { m, e: -1 })), one);
        assert_eq!(string(units_chars(Float { m, e: -1 })), none);
    }
}

#[test]
fn single_precision_texts_agree_with_the_standard_library() {
    let mut samples: Vec<f32> = vec![
        0.0, -0.0, 1.0, -1.5, 0.05, 0.25, 0.35, 39.95, 40.0, 79.99, 80.0, 100.0, 780.0, 1e10,
        f32::MAX, f32::MIN, f32::MIN_POSITIVE, 1e-45, f32::INFINITY, f32::NEG_INFINITY, f32::NAN,
    ];
    for n in numbers(5000) {
        samples.push(f32::from_bits(n as u32));
        samples.push((n % 100_000) as f32 / 64.0);
    }
    for x in samples {
        let f = F32 { bits: x.to_bits() };
        assert_eq!(string(f.chars()), format!("{:.1}", x), "{:?}", x);
        for k in [1u32, 40, 80, 1_000_000] {
            assert_eq!(f.is_at_least(k), x >= k as f32, "{:?} {}", x, k);
        }
    }
    assert_eq!(string(F32::zero().chars()), "0.0");
}

#[test]
fn single_precision_order_is_by_value() {
    let samples = [
        f32::NEG_INFINITY, f32::MIN, -2.5, -1e-45, -0.0, 0.0, 1e-45, f32::MIN_POSITIVE, 1.0, 2.5,
        80.0, f32::MAX, f32::INFINITY,
    ];
    for a in samples {
        for b in samples {
            let (x, y) = (F32 { bits: a.to_bits() }, F32 { bits: b.to_bits() });
            assert_eq!(x.order() <= y.order(), a <= b, "{} {}", a, b);
        }
    }
}

fn floats(count: usize) -> Vec<f32> {
    let mut out: Vec<f32> = vec![
        0.0, 1.0, -1.0, 0.1, 99.9, 12.5, 1e-45, -1e-45, 3e-45, 1e-40, f32::MIN_POSITIVE, 1e30, -1e30,
        f32::MAX, f32::MIN, f32::INFINITY, f32::NEG_INFINITY, f32::NAN, 8388608.0, 8388609.0,
        16777215.0, 16777216.0, 0.99999994, 1.0000001, 4.6116860e18, -0.0,
    ];
    for n in numbers(count) {
        out.push(f32::from_bits((n ^ (n >> 17)) as u32));
        out.push((n % 80_000) as f32 / 100.0);
        out.push(2f32.powi((n % 250) as i32 - 140));
    }
    out
}

fn same(a: F32, b: f32) -> bool {
    if b.is_nan() {
        f32::from_bits(a.bits).is_nan()
    } else {
        a.bits == b.to_bits()
    }
}

#[test]
fn sums_agree_with_single_precision() {
    let all = floats(150);
    for &a in &all {
        for &b in &all {
            let got = F32 { bits: a.to_bits() }.add_rounded(F32 { bits: b.to_bits() });
            assert!(same(got, a + b), "{:?} {:?} {:?}", a, b, got);
        }
    }
}

#[test]
fn quotients_agree_with_single_precision() {
    for a in floats(300) {
        for n in [1u64, 2, 3, 7, 10, 64, 100, 128, 1000, 16777217, 1 << 40, u64::MAX] {
            let got = F32 { bits: a.to_bits() }.divided_by_count(n);
            assert!(same(got, a / n as f32), "{:?} {} {:?}", a, n, got);
        }
    }
}

#[test]
fn means_agree_with_single_precision() {
    let loads: Vec<f32> = numbers(500).iter().map(|n| (n % 10_001) as f32 / 100.0).collect();
    for len in [1usize, 2, 3, 8, 64, 300] {
        let part = &loads[..len];
        let bits: Vec<F32> = part.iter().map(|x| F32 { bits: x.to_bits() }).collect();
        let sum = part.iter().sum::<f32>();
        assert!(same(sum_rounded(&bits), sum));
        assert!(same(mean_rounded(&bits), sum / len as f32));
    }
    assert_eq!(mean_rounded(&[]), F32::zero());
    assert_eq!(sum_rounded(&[]), F32::zero());
}
