use hdrhistogram::Histogram;
use lob::recorder::{Recorder, CEILING_NS};

fn histogram(rec: &Recorder) -> Histogram<u64> {
    let mut h = Histogram::<u64>::new_with_bounds(1, 60_000_000_000, 3).unwrap();
    for (top, count) in rec.buckets() {
        h.record_n(top, count).unwrap();
    }
    h
}

fn p(rec: &Recorder, q: f64) -> u64 {
    histogram(rec).value_at_quantile(q)
}

#[test]
fn percentiles_correct_on_known_distribution() {
    let mut rec = Recorder::new();
    for v in 1..=1000u64 {
        rec.record(v);
    }
    assert_eq!(rec.count(), 1000);

    let p50 = p(&rec, 0.50);
    let p90 = p(&rec, 0.90);
    let p99 = p(&rec, 0.99);
    assert!((495..=505).contains(&p50), "p50 = {p50}, expected ~500");
    assert!((895..=905).contains(&p90), "p90 = {p90}, expected ~900");
    assert!((985..=1000).contains(&p99), "p99 = {p99}, expected ~990");

    let mean = histogram(&rec).mean();
    assert!((mean - 500.5).abs() < 2.0, "mean = {mean}, expected ~500.5");
    assert!(rec.max() >= 1000, "max = {}, expected >= 1000", rec.max());
}

#[test]
fn single_value_reads_back() {
    let mut rec = Recorder::new();
    rec.record(42);
    assert_eq!(rec.count(), 1);
    assert!((41..=43).contains(&p(&rec, 0.5)));
}

#[test]
fn an_empty_recorder_has_nothing() {
    let rec = Recorder::default();
    assert_eq!(rec.count(), 0);
    assert_eq!(rec.max(), 0);
    assert!(rec.buckets().is_empty());
}

#[test]
fn zero_counts_as_one_nanosecond() {
    let mut rec = Recorder::new();
    rec.record(0);
    rec.record(1);
    assert_eq!(rec.buckets(), vec![(1, 2)]);
    assert_eq!(rec.max(), 1);
}

#[test]
fn small_values_are_kept_exactly_and_large_ones_within_their_bucket() {
    let mut rec = Recorder::new();
    rec.record(2047);
    assert_eq!(rec.max(), 2047);
    rec.record(2048);
    assert_eq!(rec.max(), 2049);
    rec.record(4096);
    assert_eq!(rec.max(), 4099);
    rec.record(1_000_000);
    let top = rec.max();
    assert!(top >= 1_000_000 && 1000 * (top - 1_000_000) <= 1_000_000);
    assert_eq!(rec.buckets().len(), 4);
    assert_eq!(rec.count(), 4);
}

#[test]
fn values_without_a_bucket_are_dropped() {
    let mut rec = Recorder::new();
    rec.record(60_000_000_000);
    rec.record(CEILING_NS - 1);
    assert_eq!(rec.count(), 2);
    rec.record(CEILING_NS);
    rec.record(u64::MAX);
    assert_eq!(rec.count(), 2);
}
