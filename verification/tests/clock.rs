use lob::clock::{median, ns_u64, BenchClock};

#[test]
fn clock_overhead_is_measured_and_recorded() {
    let clock = BenchClock::new();
    assert!(
        clock.overhead_ns() > 0,
        "clock read-read overhead must be a measurable, non-zero floor"
    );
    assert!(
        clock.overhead_ns() < 1_000,
        "implausibly large clock floor: {} ns",
        clock.overhead_ns()
    );
}

#[test]
fn delta_ns_is_non_negative_for_ordered_reads() {
    let clock = BenchClock::new();
    let a = clock.raw();
    let mut acc = 0u64;
    for i in 0..10_000u64 {
        acc = acc.wrapping_add(i);
    }
    let b = clock.raw();
    let _ = std::hint::black_box(acc);
    assert!(b >= a, "raw counter must not go backwards");
    let _ = clock.delta_ns(a, b);
}

#[test]
fn no_time_passes_backwards() {
    let clock = BenchClock::default();
    assert_eq!(clock.delta_ns(5, 5), 0);
    assert_eq!(clock.delta_ns(9, 5), 0);
    assert_eq!(clock.now_since_ns(u64::MAX), 0);
    assert!(clock.delta_ns(0, 1_000_000_000) > 0);
}

#[test]
fn nanoseconds_saturate() {
    assert_eq!(ns_u64(0), 0);
    assert_eq!(ns_u64(u128::from(u64::MAX)), u64::MAX);
    assert_eq!(ns_u64(u128::from(u64::MAX) + 1), u64::MAX);
}

#[test]
fn the_median_is_the_upper_middle() {
    assert_eq!(median(vec![7]), 7);
    assert_eq!(median(vec![9, 1, 5]), 5);
    assert_eq!(median(vec![4, 1, 3, 2]), 3);
}

#[test]
fn a_span_is_that_of_the_ticks_between() {
    let clock = BenchClock::new();
    for ticks in [1u64, 1_000, 1_000_000_000] {
        let ns = clock.delta_ns(0, ticks);
        assert_eq!(clock.delta_ns(17, 17 + ticks), ns);
        assert_eq!(clock.delta_ns(u64::MAX - ticks, u64::MAX), ns);
    }
}
